use ipsort::parse::{parse_token, strip_cidr_punctuation, ParsedToken};

fn assert_valid_cidr(
    token: &str,
    expected_network: &str,
    expected_host_bits: bool,
) {
    match parse_token(token) {
        ParsedToken::ValidCidr {
            original,
            network,
            had_host_bits,
        } => {
            assert_eq!(original, token);
            assert_eq!(
                network.to_string(),
                expected_network,
                "network mismatch for {token}"
            );
            assert_eq!(
                had_host_bits, expected_host_bits,
                "had_host_bits mismatch for {token}"
            );
        }
        other => panic!("expected ValidCidr for {token:?}, got {other:?}"),
    }
}

fn assert_bare_ip(token: &str, expected_network: &str) {
    match parse_token(token) {
        ParsedToken::BareIp { original, network } => {
            assert_eq!(original, token);
            assert_eq!(
                network.to_string(),
                expected_network,
                "network mismatch for {token}"
            );
        }
        other => panic!("expected BareIp for {token:?}, got {other:?}"),
    }
}

fn assert_not_ip(token: &str) {
    match parse_token(token) {
        ParsedToken::NotAnIp(s) => assert_eq!(s, token),
        other => panic!("expected NotAnIp for {token:?}, got {other:?}"),
    }
}

#[test]
fn test_ipv4_cidr_clean() {
    assert_valid_cidr("10.0.0.0/8", "10.0.0.0/8", false);
}

#[test]
fn test_ipv4_cidr_class_b() {
    assert_valid_cidr("192.168.0.0/16", "192.168.0.0/16", false);
}

#[test]
fn test_ipv4_cidr_slash32() {
    assert_valid_cidr("10.0.0.1/32", "10.0.0.1/32", false);
}

#[test]
fn test_ipv4_cidr_slash0() {
    assert_valid_cidr("0.0.0.0/0", "0.0.0.0/0", false);
}

#[test]
fn test_ipv4_host_bits_set() {
    assert_valid_cidr("10.0.0.5/24", "10.0.0.0/24", true);
}

#[test]
fn test_ipv4_host_bits_set_preserves_original() {
    match parse_token("10.0.0.5/24") {
        ParsedToken::ValidCidr { original, .. } => {
            assert_eq!(original, "10.0.0.5/24")
        }
        other => panic!("unexpected: {other:?}"),
    }
}

#[test]
fn test_ipv4_host_bits_set_class_b() {
    assert_valid_cidr("172.16.5.1/16", "172.16.0.0/16", true);
}

#[test]
fn test_ipv6_cidr_clean() {
    assert_valid_cidr("2001:db8::/32", "2001:db8::/32", false);
}

#[test]
fn test_ipv6_cidr_slash128() {
    assert_valid_cidr("::1/128", "::1/128", false);
}

#[test]
fn test_ipv6_cidr_slash0() {
    assert_valid_cidr("::/0", "::/0", false);
}

#[test]
fn test_ipv6_host_bits_set() {
    assert_valid_cidr("2001:db8::1/32", "2001:db8::/32", true);
}

#[test]
fn test_bare_ipv4_promoted_to_slash32() {
    assert_bare_ip("192.168.1.1", "192.168.1.1/32");
}

#[test]
fn test_bare_ipv4_zero() {
    assert_bare_ip("0.0.0.0", "0.0.0.0/32");
}

#[test]
fn test_bare_ipv4_broadcast() {
    assert_bare_ip("255.255.255.255", "255.255.255.255/32");
}

#[test]
fn test_bare_ipv6_promoted_to_slash128() {
    assert_bare_ip("2001:db8::1", "2001:db8::1/128");
}

#[test]
fn test_bare_ipv6_loopback() {
    assert_bare_ip("::1", "::1/128");
}

#[test]
fn test_bare_ip_preserves_original() {
    match parse_token("10.0.0.1") {
        ParsedToken::BareIp { original, .. } => {
            assert_eq!(original, "10.0.0.1")
        }
        other => panic!("unexpected: {other:?}"),
    }
}

#[test]
fn test_double_quoted_with_trailing_comma() {
    assert_valid_cidr("\"10.0.0.0/8\",", "10.0.0.0/8", false);
}

#[test]
fn test_single_quoted() {
    assert_valid_cidr("'10.0.0.0/8'", "10.0.0.0/8", false);
}

#[test]
fn test_square_brackets() {
    assert_valid_cidr("[10.0.0.0/8]", "10.0.0.0/8", false);
}

#[test]
fn test_trailing_comma() {
    assert_valid_cidr("10.0.0.0/8,", "10.0.0.0/8", false);
}

#[test]
fn test_trailing_semicolon() {
    assert_valid_cidr("10.0.0.0/8;", "10.0.0.0/8", false);
}

#[test]
fn test_curly_braces() {
    assert_valid_cidr("{10.0.0.0/8}", "10.0.0.0/8", false);
}

#[test]
fn test_parentheses() {
    assert_valid_cidr("(10.0.0.0/8)", "10.0.0.0/8", false);
}

#[test]
fn test_yaml_list_dash_is_not_ip() {
    // "-" alone (yaml list marker split from value) is not an IP
    assert_not_ip("-");
}

#[test]
fn test_punctuation_stripping_preserves_original() {
    match parse_token("\"10.0.0.0/8\",") {
        ParsedToken::ValidCidr { original, .. } => {
            assert_eq!(original, "\"10.0.0.0/8\",")
        }
        other => panic!("unexpected: {other:?}"),
    }
}

#[test]
fn test_bare_ip_with_punctuation() {
    assert_bare_ip("\"192.168.1.1\"", "192.168.1.1/32");
}

#[test]
fn test_plain_word() {
    assert_not_ip("somekey:");
}

#[test]
fn test_yaml_comment() {
    assert_not_ip("#comment");
}

#[test]
fn test_empty_string() {
    assert_not_ip("");
}

#[test]
fn test_only_punctuation() {
    assert_not_ip("---");
}

#[test]
fn test_version_number_not_ip() {
    // Version numbers look IP-like but have too many octets or wrong
    // format
    assert_not_ip("1.2.3.4.5");
}

#[test]
fn test_invalid_prefix_length() {
    // /33 is invalid for IPv4; host bits logic doesn't apply, it's
    // malformed
    assert_not_ip("10.0.0.0/33");
}

#[test]
fn test_invalid_octet() {
    assert_not_ip("999.0.0.1/24");
}

#[test]
fn test_word_with_numbers() {
    assert_not_ip("v1.2.3");
}

#[test]
fn test_network_returns_some_for_valid_cidr() {
    let t = parse_token("10.0.0.0/8");
    assert!(t.network().is_some());
}

#[test]
fn test_network_returns_some_for_bare_ip() {
    let t = parse_token("10.0.0.1");
    assert!(t.network().is_some());
}

#[test]
fn test_network_returns_none_for_not_ip() {
    let t = parse_token("hello");
    assert!(t.network().is_none());
}

#[test]
fn test_is_ip_true_for_cidr() {
    assert!(parse_token("10.0.0.0/8").is_ip());
}

#[test]
fn test_is_ip_true_for_bare() {
    assert!(parse_token("10.0.0.1").is_ip());
}

#[test]
fn test_is_ip_false_for_not_ip() {
    assert!(!parse_token("hello").is_ip());
}

#[test]
fn test_original_roundtrip_not_ip() {
    let token = "some-random-text";
    assert_eq!(parse_token(token).original(), token);
}

#[test]
fn test_strip_nothing_to_strip() {
    assert_eq!(strip_cidr_punctuation("10.0.0.0/8"), "10.0.0.0/8");
}

#[test]
fn test_strip_double_quotes() {
    assert_eq!(strip_cidr_punctuation("\"10.0.0.0/8\""), "10.0.0.0/8");
}

#[test]
fn test_strip_single_quotes() {
    assert_eq!(strip_cidr_punctuation("'10.0.0.0/8'"), "10.0.0.0/8");
}

#[test]
fn test_strip_trailing_comma() {
    assert_eq!(strip_cidr_punctuation("10.0.0.0/8,"), "10.0.0.0/8");
}

#[test]
fn test_strip_trailing_semicolon() {
    assert_eq!(strip_cidr_punctuation("10.0.0.0/8;"), "10.0.0.0/8");
}

#[test]
fn test_strip_square_brackets() {
    assert_eq!(strip_cidr_punctuation("[10.0.0.0/8]"), "10.0.0.0/8");
}

#[test]
fn test_strip_curly_braces() {
    assert_eq!(strip_cidr_punctuation("{10.0.0.0/8}"), "10.0.0.0/8");
}

#[test]
fn test_strip_parentheses() {
    assert_eq!(strip_cidr_punctuation("(10.0.0.0/8)"), "10.0.0.0/8");
}

#[test]
fn test_strip_mixed_punctuation() {
    assert_eq!(strip_cidr_punctuation("\"10.0.0.0/8\","), "10.0.0.0/8");
}

#[test]
fn test_strip_bare_ip() {
    assert_eq!(strip_cidr_punctuation("\"192.168.1.1\""), "192.168.1.1");
}

#[test]
fn test_strip_all_punctuation_returns_empty() {
    assert_eq!(strip_cidr_punctuation("---"), "");
}

#[test]
fn test_strip_only_whitespace_adjacent() {
    // whitespace is not a valid cidr char so it gets stripped too
    assert_eq!(strip_cidr_punctuation(" 10.0.0.0/8 "), "10.0.0.0/8");
}

#[test]
fn test_strip_does_not_touch_middle() {
    // internal non-cidr chars are preserved (malformed token, not our job
    // to fix)
    assert_eq!(
        strip_cidr_punctuation("\"10.0.0.1/24abc\""),
        "10.0.0.1/24abc"
    );
}

#[test]
fn test_strip_ipv6() {
    assert_eq!(
        strip_cidr_punctuation("\"2001:db8::/32\","),
        "2001:db8::/32"
    );
}
