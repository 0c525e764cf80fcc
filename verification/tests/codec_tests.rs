use nbnet::config::{default_base_fee_change_denom, default_elasticity_multiplier, default_min_base_fee, CompatProfile, EvmChainConfig};
use nbnet::genesis::{decode, default_base_fee, default_gas_limit, deserialize, encode, serialize};
use nbnet::receipt;

#[test]
fn hex_encode_and_decode() {
    assert_eq!(encode(&[0x00, 0xab, 0xff]), "00abff");
    assert_eq!(serialize(&[0x12, 0x34]), "0x1234");
    assert_eq!(decode("00abFF"), Ok(vec![0x00, 0xab, 0xff]));
    assert_eq!(deserialize("0x1234"), Ok(vec![0x12, 0x34]));
    assert_eq!(deserialize("1234"), Ok(vec![0x12, 0x34]));
    assert_eq!(deserialize(""), Ok(vec![]));
}

#[test]
fn hex_decode_errors() {
    assert_eq!(decode("abc"), Err("odd length hex string".to_string()));
    assert_eq!(deserialize("0xzz"), Err("invalid hex: invalid digit found in string".to_string()));
    // A sign is accepted as the first digit of a pair, as `from_str_radix` does.
    assert_eq!(decode("+f"), Ok(vec![0x0f]));
    assert_eq!(decode("-f"), Err("invalid hex: invalid digit found in string".to_string()));
}

#[test]
fn hex_round_trip_example() {
    let bytes: Vec<u8> = (0u8..=255).collect();
    assert_eq!(deserialize(&serialize(&bytes)), Ok(bytes.clone()));
    assert_eq!(decode(&encode(&bytes)), Ok(bytes));
}

#[test]
fn bloom_round_trip_and_errors() {
    let mut bloom = [0u8; 256];
    bloom[0] = 0xab;
    bloom[255] = 0x01;
    let s = receipt::serialize(&bloom);
    assert_eq!(s.len(), 514);
    assert!(s.starts_with("0xab00"));
    assert_eq!(receipt::deserialize(&s), Ok(bloom));
    assert_eq!(receipt::deserialize(&s[2..]), Ok(bloom));
    assert_eq!(receipt::deserialize("0x00"), Err("bloom must be 256 bytes hex".to_string()));
    let bad = format!("0x{}zz", "00".repeat(255));
    assert_eq!(receipt::deserialize(&bad), Err("invalid digit found in string".to_string()));
}

#[test]
fn bloom_with_split_character_reports_utf8_error() {
    // "a€" puts the first byte of a three-byte character in the first pair.
    let s = format!("a\u{20ac}{}", "0".repeat(508));
    assert_eq!(s.len(), 512);
    let expected = std::str::from_utf8(&s.as_bytes()[..2]).unwrap_err().to_string();
    assert_eq!(receipt::deserialize(&s), Err(expected));
}

#[test]
fn config_defaults() {
    let c = EvmChainConfig::default();
    assert_eq!(c.chain_id, 1337);
    assert_eq!(c.block_gas_limit, 30_000_000);
    assert_eq!(c.base_fee_per_gas, 1_000_000_000);
    assert_eq!(c.compat_profile, CompatProfile::Modern);
    assert_eq!(CompatProfile::default(), CompatProfile::Modern);
    assert_eq!(default_min_base_fee(), 1_000_000_000);
    assert_eq!(default_base_fee_change_denom(), 8);
    assert_eq!(default_elasticity_multiplier(), 2);
    assert_eq!(default_gas_limit(), 30_000_000);
    assert_eq!(default_base_fee(), 1_000_000_000);
}

#[test]
fn hex_decode_then_encode_is_lowercase() {
    let s = "DeadBEEF0a";
    let v = decode(s).expect("hex digits");
    assert_eq!(v.len(), s.len() / 2);
    assert_eq!(encode(&v), s.to_ascii_lowercase());
    assert_eq!(deserialize("0xdead"), Ok(vec![0xde, 0xad]));
    assert_eq!(deserialize("dead"), Ok(vec![0xde, 0xad]));
}
