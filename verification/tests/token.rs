use opaque_id::token::block_of_token;
use opaque_id::token::parse_token;
use opaque_id::token::render_token;
use opaque_id::token::token_of_block;
use opaque_id::FormatFault;
use opaque_id::IdError;

#[test]
fn renders_base62_digits() {
    assert_eq!(render_token("user", 0), "user_0");
    assert_eq!(render_token("user", 9), "user_9");
    assert_eq!(render_token("user", 10), "user_A");
    assert_eq!(render_token("user", 35), "user_Z");
    assert_eq!(render_token("user", 36), "user_a");
    assert_eq!(render_token("user", 61), "user_z");
    assert_eq!(render_token("user", 62), "user_10");
    assert_eq!(render_token("user", 3843), "user_zz");
    assert_eq!(render_token("user", 1 << 64), "user_LygHa16AHYG");
    assert_eq!(render_token("user", (1 << 96) - 1), "user_1f2SI9UJPXvb7vdJ1");
}

#[test]
fn renders_the_largest_number_in_22_digits() {
    assert_eq!(render_token("", u128::MAX), "_7n42DGM5Tflk9n8mt7Fhc7");
    assert_eq!(render_token("x", u128::MAX).len(), 2 + 22);
}

#[test]
fn renders_any_namespace() {
    assert_eq!(render_token("", 5), "_5");
    assert_eq!(render_token("my_ns", 5), "my_ns_5");
    assert_eq!(render_token("café", 62), "café_10");
}

#[test]
fn parses_namespace_and_number() {
    assert_eq!(parse_token("user_0"), Ok(("user".to_string(), 0)));
    assert_eq!(parse_token("user_z"), Ok(("user".to_string(), 61)));
    assert_eq!(parse_token("user_10"), Ok(("user".to_string(), 62)));
    assert_eq!(parse_token("user_LygHa16AHYG"), Ok(("user".to_string(), 1 << 64)));
    assert_eq!(
        parse_token("_7n42DGM5Tflk9n8mt7Fhc7"),
        Ok((String::new(), u128::MAX))
    );
}

#[test]
fn parse_splits_at_the_last_separator() {
    assert_eq!(parse_token("a_b_10"), Ok(("a_b".to_string(), 62)));
    assert_eq!(parse_token("__1"), Ok(("_".to_string(), 1)));
    assert_eq!(parse_token("café_10"), Ok(("café".to_string(), 62)));
}

#[test]
fn parse_accepts_leading_zeros() {
    assert_eq!(parse_token("user_0000A"), Ok(("user".to_string(), 10)));
    assert_eq!(parse_token("user_000"), Ok(("user".to_string(), 0)));
    assert_eq!(
        parse_token("user_0000000000000000000017"),
        Ok(("user".to_string(), 69))
    );
}

#[test]
fn parse_refuses_a_missing_separator() {
    let missing = Err(IdError::Format(FormatFault::MissingSeparator));
    assert_eq!(parse_token("noseparatorstringwithoutunderscore"), missing);
    assert_eq!(parse_token(""), missing);
    assert_eq!(parse_token("user-10"), missing);
}

#[test]
fn parse_refuses_a_tail_of_more_than_22_bytes() {
    let too_long = Err(IdError::Format(FormatFault::TailTooLong));
    assert_eq!(parse_token("user_00000000000000000000017"), too_long);
    assert_eq!(parse_token("user_10000000000000000000000"), too_long);
    assert_eq!(parse_token("user_!!!!!!!!!!!!!!!!!!!!!!!"), too_long);
    // eight characters of three bytes each
    assert_eq!(parse_token("user_€€€€€€€€"), too_long);
}

#[test]
fn parse_refuses_what_is_not_base62() {
    let invalid = Err(IdError::Format(FormatFault::InvalidBase62));
    assert_eq!(parse_token("user_"), invalid);
    assert_eq!(parse_token("user_12-4"), invalid);
    assert_eq!(parse_token("user_ 1"), invalid);
    assert_eq!(parse_token("user_é"), invalid);
    assert_eq!(parse_token("user_€€€€€€€"), invalid);
}

#[test]
fn parse_refuses_a_number_above_128_bits() {
    let invalid = Err(IdError::Format(FormatFault::InvalidBase62));
    assert_eq!(parse_token("user_7n42DGM5Tflk9n8mt7Fhc8"), invalid);
    assert_eq!(parse_token("user_zzzzzzzzzzzzzzzzzzzzzz"), invalid);
    assert_eq!(
        parse_token("user_7n42DGM5Tflk9n8mt7Fhc7"),
        Ok(("user".to_string(), u128::MAX))
    );
}

#[test]
fn parse_undoes_render() {
    for ns in ["user", "", "a_b", "café"] {
        for n in [0u128, 1, 61, 62, 1 << 64, u128::MAX] {
            assert_eq!(parse_token(&render_token(ns, n)), Ok((ns.to_string(), n)));
        }
    }
}

#[test]
fn token_of_block_reads_the_block_big_endian() {
    let mut block = [0u8; 16];
    assert_eq!(token_of_block("user", &block), "user_0");
    block[15] = 62;
    assert_eq!(token_of_block("user", &block), "user_10");
    block[14] = 1;
    assert_eq!(token_of_block("user", &block), render_token("user", 256 + 62));
    assert_eq!(token_of_block("user", &[255u8; 16]), "user_7n42DGM5Tflk9n8mt7Fhc7");
    let cipher = [
        25, 235, 191, 74, 210, 175, 201, 172, 158, 246, 193, 32, 26, 21, 168, 226,
    ];
    assert_eq!(token_of_block("user", &cipher), "user_muXmpnMvs6w1bswJpLmQk");
}

#[test]
fn block_of_token_writes_the_number_big_endian() {
    let mut block = vec![0u8; 16];
    assert_eq!(block_of_token("user_0"), Ok(("user".to_string(), block.clone())));
    block[15] = 62;
    assert_eq!(block_of_token("user_10"), Ok(("user".to_string(), block.clone())));
    assert_eq!(
        block_of_token("user_muXmpnMvs6w1bswJpLmQk"),
        Ok((
            "user".to_string(),
            vec![25, 235, 191, 74, 210, 175, 201, 172, 158, 246, 193, 32, 26, 21, 168, 226]
        ))
    );
    assert_eq!(
        block_of_token("user"),
        Err(IdError::Format(FormatFault::MissingSeparator))
    );
    assert_eq!(
        block_of_token("user_12345678901234567890123"),
        Err(IdError::Format(FormatFault::TailTooLong))
    );
    assert_eq!(
        block_of_token("user_?"),
        Err(IdError::Format(FormatFault::InvalidBase62))
    );
}

#[test]
fn tokens_of_distinct_namespaces_differ() {
    assert_ne!(render_token("a", 5), render_token("b", 5));
    assert_ne!(render_token("a", 5), render_token("a_", 5));
    assert_ne!(render_token("a_5", 5), render_token("a", 5));
}
