use opaque_id::block::U96_MAX;
use opaque_id::token::block_of_token;
use opaque_id::token::token_of_block;
use opaque_id::FormatFault;
use opaque_id::IdError;
use opaque_id::WasmIdGenerator;

#[test]
fn encodes_to_the_expected_tokens() {
    let mut g = WasmIdGenerator::new("s3cret");
    assert_eq!(g.encode("user", 0), Ok("user_6g4eKjcZ8NlJ08cUi9IsjC".to_string()));
    assert_eq!(g.encode("user", 1), Ok("user_51WPaTFLG9yy3nPnHnM2xJ".to_string()));
    assert_eq!(g.encode("user", 42), Ok("user_muXmpnMvs6w1bswJpLmQk".to_string()));
    assert_eq!(g.encode("user", U96_MAX), Ok("user_vtFWFXL8bV2Ze9x7bsIZd".to_string()));
    assert_eq!(g.encode("order", 42), Ok("order_2L4RuMO7zu9u3WVLsDiHXI".to_string()));
    assert_eq!(g.encode("my_ns", 5), Ok("my_ns_2aRB6QVf4bp4Ikl8ppm4zr".to_string()));
    assert_eq!(g.encode("", 5), Ok("_7AXFHjwuC7AAG5UpSKKBAg".to_string()));
    assert_eq!(g.encode("café", 5), Ok("café_5r1i48a6EWc9fvIW7I37pZ".to_string()));
}

#[test]
fn the_token_depends_on_the_secret() {
    let mut g = WasmIdGenerator::new("other");
    assert_eq!(g.encode("user", 42), Ok("user_TOSrjGPYMFF3ujs97O3Eo".to_string()));
    let mut e = WasmIdGenerator::new("");
    assert_eq!(e.encode("user", 5), Ok("user_4e9xxzza5mKXhTngRqAn9B".to_string()));
}

#[test]
fn decodes_the_expected_tokens() {
    let mut g = WasmIdGenerator::new("s3cret");
    assert_eq!(g.decode("user_6g4eKjcZ8NlJ08cUi9IsjC"), Ok(("user".to_string(), 0)));
    assert_eq!(g.decode("user_muXmpnMvs6w1bswJpLmQk"), Ok(("user".to_string(), 42)));
    assert_eq!(g.decode("user_vtFWFXL8bV2Ze9x7bsIZd"), Ok(("user".to_string(), U96_MAX)));
    assert_eq!(g.decode("my_ns_2aRB6QVf4bp4Ikl8ppm4zr"), Ok(("my_ns".to_string(), 5)));
    assert_eq!(g.decode("_7AXFHjwuC7AAG5UpSKKBAg"), Ok((String::new(), 5)));
    assert_eq!(g.decode("café_5r1i48a6EWc9fvIW7I37pZ"), Ok(("café".to_string(), 5)));
}

#[test]
fn decode_accepts_leading_zeros() {
    let mut g = WasmIdGenerator::new("s3cret");
    assert_eq!(g.decode("user_0muXmpnMvs6w1bswJpLmQk"), Ok(("user".to_string(), 42)));
}

#[test]
fn round_trip() {
    let mut g = WasmIdGenerator::new("s3cret");
    for ns in ["user", "order", "", "a_b", "café"] {
        for p in [0u128, 1, 42, u64::MAX as u128, 1 << 64, U96_MAX - 1, U96_MAX] {
            let token = g.encode(ns, p).unwrap();
            assert_eq!(g.decode(&token), Ok((ns.to_string(), p)));
        }
    }
}

#[test]
fn round_trip_with_a_fresh_generator() {
    let token = WasmIdGenerator::new("s3cret").encode("user", 123_456).unwrap();
    assert_eq!(
        WasmIdGenerator::new("s3cret").decode(&token),
        Ok(("user".to_string(), 123_456))
    );
}

#[test]
fn encoding_is_deterministic() {
    let mut g = WasmIdGenerator::new("s3cret");
    let first = g.encode("user", 42).unwrap();
    let second = g.encode("user", 42).unwrap();
    assert_eq!(first, second);
    assert_eq!(WasmIdGenerator::new("s3cret").encode("user", 42).unwrap(), first);
}

#[test]
fn token_has_namespace_separator_and_at_most_22_digits() {
    let mut g = WasmIdGenerator::new("s3cret");
    for p in 0..200u128 {
        let token = g.encode("user", p).unwrap();
        let tail = token.strip_prefix("user_").unwrap();
        assert!(!tail.is_empty());
        assert!(tail.len() <= 22);
        assert!(tail.bytes().all(|b| b.is_ascii_alphanumeric()));
    }
}

#[test]
fn namespaces_are_isolated() {
    let mut g = WasmIdGenerator::new("s3cret");
    let user = g.encode("user", 42).unwrap();
    let order = g.encode("order", 42).unwrap();
    assert_ne!(user, order);
    assert_ne!(
        user.strip_prefix("user_").unwrap(),
        order.strip_prefix("order_").unwrap()
    );
    let moved = format!("order_{}", user.strip_prefix("user_").unwrap());
    assert_eq!(g.decode(&moved), Err(IdError::Integrity));
}

#[test]
fn a_token_of_another_secret_is_refused() {
    let token = WasmIdGenerator::new("s3cret").encode("user", 42).unwrap();
    assert_eq!(
        WasmIdGenerator::new("other").decode(&token),
        Err(IdError::Integrity)
    );
}

#[test]
fn every_single_bit_flip_of_the_cipher_block_is_detected() {
    let mut g = WasmIdGenerator::new("s3cret");
    let token = g.encode("user", 42).unwrap();
    let (ns, block) = block_of_token(&token).unwrap();
    assert_eq!(ns, "user");
    for bit in 0..128usize {
        let mut damaged = block.clone();
        damaged[bit / 8] ^= 1 << (bit % 8);
        let forged = token_of_block("user", &damaged);
        assert_ne!(forged, token);
        assert_eq!(g.decode(&forged), Err(IdError::Integrity));
    }
}

#[test]
fn well_formed_garbage_fails_the_integrity_check() {
    let mut g = WasmIdGenerator::new("s3cret");
    assert_eq!(g.decode("user_0"), Err(IdError::Integrity));
    assert_eq!(g.decode("user_A"), Err(IdError::Integrity));
    assert_eq!(g.decode("user_7n42DGM5Tflk9n8mt7Fhc7"), Err(IdError::Integrity));
}

#[test]
fn payload_bound_is_enforced() {
    let mut g = WasmIdGenerator::new("s3cret");
    assert_eq!(g.encode("user", 1 << 96), Err(IdError::Range));
    assert_eq!(g.encode("user", u128::MAX), Err(IdError::Range));
    assert!(g.encode("user", (1 << 96) - 1).is_ok());
}

#[test]
fn a_refused_payload_leaves_the_cache_alone() {
    let mut g = WasmIdGenerator::new("s3cret");
    assert_eq!(g.encode("user", 1 << 96), Err(IdError::Range));
    assert_eq!(g.cached_len(), 0);
    assert!(!g.is_cached("user"));
    assert!(g.encode("user", 1).is_ok());
    assert_eq!(g.cached_len(), 1);
    assert!(g.is_cached("user"));
}

#[test]
fn malformed_tokens_are_refused() {
    let mut g = WasmIdGenerator::new("s3cret");
    assert_eq!(
        g.decode("noseparatorstringwithoutunderscore"),
        Err(IdError::Format(FormatFault::MissingSeparator))
    );
    assert_eq!(g.decode(""), Err(IdError::Format(FormatFault::MissingSeparator)));
    assert_eq!(
        g.decode("user_muXmpnMvs6w1bswJpLmQk00"),
        Err(IdError::Format(FormatFault::TailTooLong))
    );
    assert_eq!(
        g.decode("user_00muXmpnMvs6w1bswJpLmQk"),
        Err(IdError::Format(FormatFault::TailTooLong))
    );
    assert_eq!(
        g.decode("user_muXmpnMvs6w1bsw-pLmQk"),
        Err(IdError::Format(FormatFault::InvalidBase62))
    );
    assert_eq!(g.decode("user_"), Err(IdError::Format(FormatFault::InvalidBase62)));
    assert_eq!(
        g.decode("user_zzzzzzzzzzzzzzzzzzzzzz"),
        Err(IdError::Format(FormatFault::InvalidBase62))
    );
    assert_eq!(g.cached_len(), 0);
}

#[test]
fn decode_asks_for_the_key_of_the_namespace() {
    let mut g = WasmIdGenerator::new("s3cret");
    assert_eq!(g.decode("user_0"), Err(IdError::Integrity));
    assert!(g.is_cached("user"));
    assert_eq!(g.cached_len(), 1);
}

#[test]
fn a_token_survives_the_eviction_of_its_key() {
    let mut g = WasmIdGenerator::new("s3cret");
    let token = g.encode("ns0", 0).unwrap();
    assert_eq!(token, "ns0_75JRpkRQH6dpDLdJBcrFyQ");
    for i in 1..=1024u128 {
        g.encode(&format!("ns{}", i), i).unwrap();
    }
    assert_eq!(g.cached_len(), 1024);
    assert!(!g.is_cached("ns0"));
    assert!(g.is_cached("ns1"));
    assert_eq!(g.decode(&token), Ok(("ns0".to_string(), 0)));
    assert!(g.is_cached("ns0"));
    assert!(!g.is_cached("ns1"));
    assert_eq!(g.encode("ns0", 0), Ok(token));
    assert_eq!(g.encode("ns1", 1), Ok("ns1_2EWMoq6hIGkqnMENZl2r8J".to_string()));
    assert_eq!(g.decode("ns1024_6uNCc9De8o68A6pvoK9OiT"), Ok(("ns1024".to_string(), 1024)));
}

#[test]
fn pair_example() {
    let mut g = WasmIdGenerator::new("s3cret");
    let token = g.encode_pair("user", 42, 7).unwrap();
    let tail = token.strip_prefix("user_").unwrap();
    assert!(!tail.is_empty() && tail.len() <= 22);
    assert!(tail.bytes().all(|b| b.is_ascii_alphanumeric()));
    assert_eq!(token, "user_5bqhwFl4aNeXcpHcs3fDWO");
    assert_eq!(g.decode_pair(&token), Ok(("user".to_string(), 42, 7)));
}

#[test]
fn pair_round_trip() {
    let mut g = WasmIdGenerator::new("s3cret");
    for (id, generation) in [(0u64, 0u32), (1, 0), (0, 1), (42, 7), (u64::MAX, u32::MAX)] {
        let token = g.encode_pair("order", id, generation).unwrap();
        assert_eq!(g.decode_pair(&token), Ok(("order".to_string(), id, generation)));
    }
}

#[test]
fn pair_is_the_payload_with_the_generation_above_the_identifier() {
    let mut g = WasmIdGenerator::new("s3cret");
    assert_eq!(g.encode_pair("user", 42, 7), g.encode("user", 42 + (7u128 << 64)));
    assert_eq!(g.encode_pair("user", 42, 0), g.encode("user", 42));
    let token = g.encode("user", U96_MAX).unwrap();
    assert_eq!(g.decode_pair(&token), Ok(("user".to_string(), u64::MAX, u32::MAX)));
}

#[test]
fn pair_decoding_refuses_what_decoding_refuses() {
    let mut g = WasmIdGenerator::new("s3cret");
    assert_eq!(
        g.decode_pair("user"),
        Err(IdError::Format(FormatFault::MissingSeparator))
    );
    assert_eq!(
        g.decode_pair("user_12345678901234567890123"),
        Err(IdError::Format(FormatFault::TailTooLong))
    );
    assert_eq!(
        g.decode_pair("user_#"),
        Err(IdError::Format(FormatFault::InvalidBase62))
    );
    assert_eq!(g.decode_pair("user_1"), Err(IdError::Integrity));
}

#[test]
fn messages() {
    assert_eq!(IdError::Range.message(), "Number is larger than 96 bits");
    assert_eq!(
        IdError::Format(FormatFault::MissingSeparator).message(),
        "Invalid input format"
    );
    assert_eq!(
        IdError::Format(FormatFault::TailTooLong).message(),
        "Invalid input format"
    );
    assert_eq!(
        IdError::Format(FormatFault::InvalidBase62).message(),
        "Failed to decode input."
    );
    assert_eq!(IdError::KeyInit.message(), "Failed to initialize cipher.");
    assert_eq!(IdError::Integrity.message(), "Integrity check failed.");
}
