use avrobench::cli::{
    parse_compression, parse_i32, parse_operation, plan_run, str_eq, CodecVariant, Compression,
    Operation, RunPlan,
};

#[test]
fn bogus_operation_means_usage_for_both_variants() {
    let r = plan_run(CodecVariant::ViaValue, Some("bogus"), None, None);
    assert_eq!(r, RunPlan::Usage);
    let r = plan_run(CodecVariant::Direct, Some("bogus"), None, None);
    assert_eq!(r, RunPlan::Usage);
}

#[test]
fn direct_variant_refuses_container() {
    let r = plan_run(CodecVariant::Direct, Some("container"), Some("10"), None);
    assert_eq!(r, RunPlan::Unsupported);
    let r = plan_run(CodecVariant::ViaValue, Some("container"), Some("10"), None);
    assert_eq!(r, RunPlan::RunContainer(10, Compression::Null));
}

#[test]
fn operation_defaults_to_encode() {
    assert_eq!(plan_run(CodecVariant::Direct, None, None, None), RunPlan::RunEncode(10000));
}

#[test]
fn count_defaults_and_fallback() {
    assert_eq!(
        plan_run(CodecVariant::Direct, Some("decode"), Some("123"), None),
        RunPlan::RunDecode(123)
    );
    assert_eq!(
        plan_run(CodecVariant::Direct, Some("decode"), Some("abc"), None),
        RunPlan::RunDecode(10000)
    );
    assert_eq!(
        plan_run(CodecVariant::Direct, Some("decode"), Some("12x"), None),
        RunPlan::RunDecode(10000)
    );
    assert_eq!(
        plan_run(CodecVariant::Direct, Some("encode"), Some(""), None),
        RunPlan::RunEncode(10000)
    );
}

#[test]
fn compression_names() {
    assert_eq!(
        plan_run(CodecVariant::ViaValue, Some("container"), Some("5"), Some("deflate")),
        RunPlan::RunContainer(5, Compression::Deflate)
    );
    // anything unrecognized falls back to the identity codec
    assert_eq!(
        plan_run(CodecVariant::ViaValue, Some("container"), Some("5"), Some("zstd")),
        RunPlan::RunContainer(5, Compression::Null)
    );
    assert_eq!(parse_compression("deflate"), Compression::Deflate);
    assert_eq!(parse_compression("null"), Compression::Null);
    assert_eq!(parse_compression(""), Compression::Null);
}

#[test]
fn operation_names() {
    assert_eq!(parse_operation("encode"), Some(Operation::Encode));
    assert_eq!(parse_operation("decode"), Some(Operation::Decode));
    assert_eq!(parse_operation("container"), Some(Operation::Container));
    assert_eq!(parse_operation("Encode"), None);
    assert_eq!(parse_operation(""), None);
}

#[test]
fn integer_parsing() {
    assert_eq!(parse_i32("0"), Some(0));
    assert_eq!(parse_i32("10000"), Some(10000));
    assert_eq!(parse_i32("+7"), Some(7));
    assert_eq!(parse_i32("-5"), Some(-5));
    assert_eq!(parse_i32("2147483647"), Some(2147483647));
    assert_eq!(parse_i32("2147483648"), None);
    assert_eq!(parse_i32("-2147483648"), Some(-2147483648));
    assert_eq!(parse_i32("-2147483649"), None);
    assert_eq!(parse_i32("007"), Some(7));
    assert_eq!(parse_i32(""), None);
    assert_eq!(parse_i32("+"), None);
    assert_eq!(parse_i32("-"), None);
    assert_eq!(parse_i32("1 2"), None);
    assert_eq!(parse_i32("12.5"), None);
    assert_eq!(parse_i32("99999999999999999999"), None);
}

#[test]
fn text_equality() {
    assert!(str_eq("container", "container"));
    assert!(!str_eq("container", "contained"));
    assert!(!str_eq("a", "ab"));
    assert!(str_eq("", ""));
    assert!(str_eq("ünïcode", "ünïcode"));
    assert!(!str_eq("ünïcode", "unicode"));
}
