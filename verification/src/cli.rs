//! The decision logic of the benchmark drivers: which operation a run
//! performs, with what record count and compression, and when a run is
//! refused.  The drivers themselves only read arguments, call this, and
//! carry the chosen plan out.

use vstd::prelude::*;

use vstd::utf8::{decode_utf8, encode_utf8};
use vstd::utf8::encode_utf8_decode_utf8;
use vstd::string::StrSliceExecFns;

verus! {

/// Which codec implementation strategy a driver uses.
#[derive(Clone, Copy, PartialEq, Eq, Structural, Debug)]
pub enum CodecVariant {
    /// Serializes through the intermediate value representation; also
    /// supports the container operation.
    ViaValue,
    /// Serializes directly between typed records and bytes; declines the
    /// container operation.
    Direct,
}

/// The operation a run measures.
#[derive(Clone, Copy, PartialEq, Eq, Structural, Debug)]
pub enum Operation {
    Encode,
    Decode,
    Container,
}

/// The compression codec of the container operation.
#[derive(Clone, Copy, PartialEq, Eq, Structural, Debug)]
pub enum Compression {
    Null,
    Deflate,
}

/// What a run does: one of the three measured operations with its
/// parameters, or a refusal.
#[derive(Clone, Copy, PartialEq, Eq, Structural, Debug)]
pub enum RunPlan {
    RunEncode(i32),
    RunDecode(i32),
    RunContainer(i32, Compression),
    /// The operation name is not recognized: print usage, exit nonzero.
    Usage,
    /// The variant does not support the operation: print an explanation,
    /// exit nonzero.
    Unsupported,
}

/// Compares two texts.
pub fn str_eq(a: &str, b: &str) -> (r: bool)
    ensures
        r <==> a@ == b@,
{
    let ab = a.as_bytes();
    let bb = b.as_bytes();
    proof {
        encode_utf8_decode_utf8(a@);
        encode_utf8_decode_utf8(b@);
    }
    if ab.len() != bb.len() {
        proof {
            assert(a@ != b@);
        }
        return false;
    }
    let n = ab.len();
    let mut i: usize = 0;
    while i < n
        invariant
            i <= n,
            n == ab@.len() == bb@.len(),
            ab@ == encode_utf8(a@),
            bb@ == encode_utf8(b@),
            decode_utf8(encode_utf8(a@)) == a@,
            decode_utf8(encode_utf8(b@)) == b@,
            forall|k: int| 0 <= k < i ==> ab@[k] == bb@[k],
        decreases n - i,
    {
        if ab[i] != bb[i] {
            proof {
                assert(ab@ != bb@);
                assert(a@ != b@);
            }
            return false;
        }
        i = i + 1;
    }
    proof {
        assert(ab@ =~= bb@);
        assert(a@ == b@);
    }
    true
}

/// The operation an argument text names, if any.
pub open spec fn op_of(s: Seq<char>) -> Option<Operation> {
    if s == "encode"@ {
        Some(Operation::Encode)
    } else if s == "decode"@ {
        Some(Operation::Decode)
    } else if s == "container"@ {
        Some(Operation::Container)
    } else {
        None
    }
}

/// Parses an operation name.
pub fn parse_operation(s: &str) -> (r: Option<Operation>)
    ensures
        r == op_of(s@),
{
    if str_eq(s, "encode") {
        Some(Operation::Encode)
    } else if str_eq(s, "decode") {
        Some(Operation::Decode)
    } else if str_eq(s, "container") {
        Some(Operation::Container)
    } else {
        None
    }
}

/// The compression an argument text names; anything unrecognized falls
/// back to the identity codec.
pub open spec fn compression_of(s: Seq<char>) -> Compression {
    if s == "deflate"@ {
        Compression::Deflate
    } else {
        Compression::Null
    }
}

/// Parses a compression name.
pub fn parse_compression(s: &str) -> (r: Compression)
    ensures
        r == compression_of(s@),
{
    if str_eq(s, "deflate") {
        Compression::Deflate
    } else {
        Compression::Null
    }
}

pub open spec fn is_digit(c: char) -> bool {
    48 <= c as u32 <= 57
}

/// Every character of `s` is a decimal digit.
pub open spec fn all_digits(s: Seq<char>) -> bool {
    forall|k: int| 0 <= k < s.len() ==> is_digit(#[trigger] s[k])
}

/// The value of a digit string, most significant digit first.
pub open spec fn digits_val(s: Seq<char>) -> int
    decreases s.len(),
{
    if s.len() == 0 {
        0
    } else {
        digits_val(s.drop_last()) * 10 + (s.last() as u32 - 48)
    }
}

proof fn lemma_digits_val_nonneg(s: Seq<char>)
    requires
        all_digits(s),
    ensures
        digits_val(s) >= 0,
    decreases s.len(),
{
    if s.len() > 0 {
        lemma_digits_val_nonneg(s.drop_last());
        assert(is_digit(s.last()));
    }
}

/// The signed 32-bit value a decimal text denotes: an optional sign,
/// then at least one digit and nothing else, within range; `None`
/// otherwise.
pub open spec fn spec_parse_i32(s: Seq<char>) -> Option<int> {
    if s.len() == 0 {
        None
    } else {
        let neg = s[0] == '-';
        let body = if s[0] == '-' || s[0] == '+' {
            s.drop_first()
        } else {
            s
        };
        if body.len() >= 1 && all_digits(body) {
            let v = digits_val(body);
            if neg {
                if v <= 0x8000_0000 {
                    Some(-v)
                } else {
                    None
                }
            } else {
                if v <= 0x7fff_ffff {
                    Some(v)
                } else {
                    None
                }
            }
        } else {
            None
        }
    }
}

/// Parses a decimal text to a signed 32-bit integer, exactly following
/// `spec_parse_i32`.
pub fn parse_i32(s: &str) -> (r: Option<i32>)
    ensures
        match r {
            Some(v) => spec_parse_i32(s@) == Some(v as int),
            None => spec_parse_i32(s@) is None,
        },
{
    let len = s.unicode_len();
    if len == 0 {
        return None;
    }
    let first = s.get_char(0);
    let neg = first == '-';
    let start: usize = if first == '-' || first == '+' {
        1
    } else {
        0
    };
    let ghost body = if first == '-' || first == '+' {
        s@.drop_first()
    } else {
        s@
    };
    if start == len {
        return None;
    }
    let mut acc: u64 = 0;
    let mut overflow = false;
    let mut i: usize = start;
    while i < len
        invariant
            start <= i <= len,
            len == s@.len(),
            start == 0 || start == 1,
            (start == 1) <==> (s@[0] == '-' || s@[0] == '+'),
            start <= s@.len(),
            body == if start == 1 {
                s@.drop_first()
            } else {
                s@
            },
            body.len() == len - start,
            forall|k: int| 0 <= k < i - start ==> is_digit(#[trigger] body[k]),
            neg == (s@[0] == '-'),
            !overflow ==> acc as int == digits_val(body.subrange(0, i - start)) && acc
                <= 0x8000_0000,
            overflow ==> digits_val(body.subrange(0, i - start)) > 0x8000_0000,
        decreases len - i,
    {
        let c = s.get_char(i);
        let cu = c as u32;
        if !(cu >= 48 && cu <= 57) {
            proof {
                if s@[0] == '-' || s@[0] == '+' {
                    assert(body == s@.drop_first());
                    assert(body[i - start] == s@[i as int]);
                } else {
                    assert(body == s@);
                }
                assert(!is_digit(body[i - start]));
                assert(!all_digits(body));
                assert(spec_parse_i32(s@) is None);
            }
            return None;
        }
        let d: u64 = (cu - 48) as u64;
        let ghost prefix = body.subrange(0, i - start);
        proof {
            assert(body.subrange(0, i + 1 - start).drop_last() =~= prefix);
            assert(body.subrange(0, i + 1 - start).last() == body[i - start]);
            lemma_digits_val_nonneg(prefix);
        }
        if !overflow {
            acc = acc * 10 + d;
            if acc > 0x8000_0000 {
                overflow = true;
            }
        }
        i = i + 1;
    }
    proof {
        assert(body.subrange(0, len - start) =~= body);
    }
    if overflow {
        return None;
    }
    if neg {
        Some((-(acc as i64)) as i32)
    } else {
        if acc > 0x7fff_ffff {
            None
        } else {
            Some(acc as i32)
        }
    }
}

/// The plan of a run, from the variant and the raw arguments: the
/// operation defaults to encode and unrecognized names refuse the run;
/// the count defaults to ten thousand, as does any unparseable count;
/// the compression defaults to the identity codec, as does any
/// unrecognized name.  The direct variant refuses the container
/// operation.
pub open spec fn spec_plan(
    variant: CodecVariant,
    op: Option<Seq<char>>,
    cnt: Option<Seq<char>>,
    comp: Option<Seq<char>>,
) -> RunPlan {
    let opname = match op {
        Some(s) => s,
        None => "encode"@,
    };
    let count = match cnt {
        Some(s) => match spec_parse_i32(s) {
            Some(v) => v,
            None => 10000,
        },
        None => 10000,
    };
    let compression = match comp {
        Some(s) => compression_of(s),
        None => Compression::Null,
    };
    match op_of(opname) {
        None => RunPlan::Usage,
        Some(Operation::Encode) => RunPlan::RunEncode(count as i32),
        Some(Operation::Decode) => RunPlan::RunDecode(count as i32),
        Some(Operation::Container) => if variant is Direct {
            RunPlan::Unsupported
        } else {
            RunPlan::RunContainer(count as i32, compression)
        },
    }
}

/// Decides what a run does, exactly following `spec_plan`.
pub fn plan_run(
    variant: CodecVariant,
    op: Option<&str>,
    cnt: Option<&str>,
    comp: Option<&str>,
) -> (r: RunPlan)
    ensures
        r == spec_plan(variant, op.deep_view(), cnt.deep_view(), comp.deep_view()),
{
    let parsed_op = match op {
        Some(s) => parse_operation(s),
        None => Some(Operation::Encode),
    };
    let count: i32 = match cnt {
        Some(s) => match parse_i32(s) {
            Some(v) => v,
            None => 10000,
        },
        None => 10000,
    };
    let compression = match comp {
        Some(s) => parse_compression(s),
        None => Compression::Null,
    };
    proof {
        reveal_strlit("encode");
    }
    match parsed_op {
        None => RunPlan::Usage,
        Some(Operation::Encode) => RunPlan::RunEncode(count),
        Some(Operation::Decode) => RunPlan::RunDecode(count),
        Some(Operation::Container) => match variant {
            CodecVariant::Direct => RunPlan::Unsupported,
            CodecVariant::ViaValue => RunPlan::RunContainer(count, compression),
        },
    }
}

} // verus!
