use ipsort::classify::{classify_line, ClassifiedLine, Span};
use ipsort::parse::{parse_token, Net};
use ipsort::sort::SortOptions;

fn net(s: &str) -> Net {
    parse_token(s).network().unwrap()
}

fn opts() -> SortOptions {
    SortOptions::default()
}

fn has_ip(line: &str) -> (Net, Vec<String>, Vec<Span>) {
    match classify_line(line, &opts()) {
        ClassifiedLine::HasIp {
            sort_key,
            warnings,
            spans,
        } => (sort_key, warnings, spans),
        ClassifiedLine::NoIp(s) => panic!("expected HasIp for {s:?}"),
    }
}

fn assert_no_ip(line: &str) {
    match classify_line(line, &opts()) {
        ClassifiedLine::NoIp(s) => assert_eq!(s, line),
        ClassifiedLine::HasIp { .. } => {
            panic!("expected NoIp for {line:?}")
        }
    }
}

fn assert_sort_key(line: &str, expected: &str) {
    let (sort_key, _, _) = has_ip(line);
    assert_eq!(
        sort_key,
        net(expected),
        "sort_key mismatch for {line:?}"
    );
}

fn ip_count(spans: &[Span]) -> usize {
    spans.iter().filter(|s| matches!(s, Span::Ip(_))).count()
}

fn non_ip_count(spans: &[Span]) -> usize {
    spans.iter().filter(|s| matches!(s, Span::NonIp(_))).count()
}

fn reconstruct(spans: &[Span]) -> String {
    spans
        .iter()
        .map(|s| match s {
            Span::Ip(t) => t.original(),
            Span::NonIp(s) => s.as_str(),
        })
        .collect()
}

#[test]
fn test_empty_line_is_no_ip() {
    assert_no_ip("");
}

#[test]
fn test_whitespace_only_is_no_ip() {
    assert_no_ip("   ");
}

#[test]
fn test_yaml_comment_is_no_ip() {
    assert_no_ip("# this is a comment");
}

#[test]
fn test_plain_text_is_no_ip() {
    assert_no_ip("somekey: somevalue");
}

#[test]
fn test_yaml_separator_is_no_ip() {
    assert_no_ip("---");
}

#[test]
fn test_no_ip_preserves_original() {
    let line = "# comment with no ip";
    match classify_line(line, &opts()) {
        ClassifiedLine::NoIp(s) => assert_eq!(s, line),
        _ => panic!("expected NoIp"),
    }
}

#[test]
fn test_plain_cidr() {
    assert_sort_key("10.0.0.0/8", "10.0.0.0/8");
}

#[test]
fn test_bare_ip_promoted() {
    assert_sort_key("192.168.1.1", "192.168.1.1/32");
}

#[test]
fn test_yaml_list_item() {
    assert_sort_key("- 10.0.0.0/8", "10.0.0.0/8");
}

#[test]
fn test_quoted_cidr() {
    assert_sort_key("\"192.168.0.0/16\"", "192.168.0.0/16");
}

#[test]
fn test_quoted_cidr_with_trailing_comma() {
    assert_sort_key("\"10.0.0.0/8\",", "10.0.0.0/8");
}

#[test]
fn test_yaml_key_value() {
    assert_sort_key("network: 172.16.0.0/12", "172.16.0.0/12");
}

#[test]
fn test_two_cidrs_whitespace_separated() {
    assert_sort_key("192.168.0.0/16 10.0.0.0/8", "10.0.0.0/8");
}

#[test]
fn test_two_cidrs_comma_separated() {
    assert_sort_key("192.168.0.0/16,10.0.0.0/8", "10.0.0.0/8");
}

#[test]
fn test_two_cidrs_semicolon_separated() {
    assert_sort_key("192.168.0.0/16;10.0.0.0/8", "10.0.0.0/8");
}

#[test]
fn test_sort_key_is_lowest_network_address() {
    assert_sort_key(
        "172.16.0.0/12 10.0.0.0/8 192.168.0.0/16",
        "10.0.0.0/8",
    );
}

#[test]
fn test_sort_key_same_network_picks_shorter_prefix() {
    // 10.0.0.0/8 and 10.0.0.0/24 have same network addr; /8 is lower
    // (shorter prefix first)
    assert_sort_key("10.0.0.0/24 10.0.0.0/8", "10.0.0.0/8");
}

#[test]
fn test_mixed_ip_and_text_sort_key() {
    assert_sort_key("somekey: 192.168.1.0/24 10.0.0.0/8", "10.0.0.0/8");
}

#[test]
fn test_json_array_of_cidrs() {
    assert_sort_key("[\"192.168.0.0/16\", \"10.0.0.0/8\"]", "10.0.0.0/8");
}

#[test]
fn test_plain_cidr_single_ip_span() {
    let (_, _, spans) = has_ip("10.0.0.0/8");
    assert_eq!(ip_count(&spans), 1);
    assert_eq!(non_ip_count(&spans), 0);
}

#[test]
fn test_yaml_list_item_spans() {
    let (_, _, spans) = has_ip("- 10.0.0.0/8");
    assert_eq!(ip_count(&spans), 1);
    assert_eq!(non_ip_count(&spans), 1);
}

#[test]
fn test_two_ips_whitespace_spans() {
    let (_, _, spans) = has_ip("10.0.0.0/8 192.168.0.0/16");
    assert_eq!(ip_count(&spans), 2);
    assert_eq!(non_ip_count(&spans), 1);
}

#[test]
fn test_two_ips_comma_spans() {
    let (_, _, spans) = has_ip("10.0.0.0/8,192.168.0.0/16");
    assert_eq!(ip_count(&spans), 2);
    assert_eq!(non_ip_count(&spans), 1);
}

#[test]
fn test_non_ip_candidate_merged_into_non_ip_span() {
    // "1.2.3.4.5" looks like a cidr run but fails to parse (should be
    // NonIp)
    let (_, _, spans) = has_ip("1.2.3.4.5 10.0.0.0/8");
    assert_eq!(ip_count(&spans), 1);
    assert_eq!(non_ip_count(&spans), 1);
}

#[test]
fn test_reconstruct_plain_cidr() {
    let (_, _, spans) = has_ip("10.0.0.0/8");
    assert_eq!(reconstruct(&spans), "10.0.0.0/8");
}

#[test]
fn test_reconstruct_yaml_list_item() {
    let (_, _, spans) = has_ip("- 10.0.0.0/8");
    assert_eq!(reconstruct(&spans), "- 10.0.0.0/8");
}

#[test]
fn test_reconstruct_two_ips() {
    let line = "10.0.0.0/8 192.168.0.0/16";
    let (_, _, spans) = has_ip(line);
    assert_eq!(reconstruct(&spans), line);
}

#[test]
fn test_reconstruct_quoted_with_comma() {
    let line = "\"10.0.0.0/8\", \"192.168.0.0/16\"";
    let (_, _, spans) = has_ip(line);
    assert_eq!(reconstruct(&spans), line);
}

#[test]
fn test_reconstruct_yaml_key_value() {
    let line = "network: 172.16.0.0/12";
    let (_, _, spans) = has_ip(line);
    assert_eq!(reconstruct(&spans), line);
}

#[test]
fn test_no_warning_for_clean_cidr() {
    let (_, warnings, _) = has_ip("10.0.0.0/8");
    assert!(warnings.is_empty());
}

#[test]
fn test_warning_for_host_bits_set() {
    let (_, warnings, _) = has_ip("10.0.0.5/8");
    assert_eq!(warnings.len(), 1);
    assert!(warnings[0].contains("host bits set"));
    assert!(warnings[0].contains("10.0.0.5/8"));
}

#[test]
fn test_warning_contains_normalized_network() {
    let (_, warnings, _) = has_ip("10.0.0.5/8");
    assert!(warnings[0].contains("10.0.0.0/8"));
}

#[test]
fn test_multiple_warnings_for_multiple_host_bits() {
    let (_, warnings, _) = has_ip("10.0.0.5/8 192.168.1.50/24");
    assert_eq!(warnings.len(), 2);
}

#[test]
fn test_no_warning_for_bare_ip() {
    let (_, warnings, _) = has_ip("192.168.1.1");
    assert!(warnings.is_empty());
}

#[test]
fn test_ipv6_cidr() {
    assert_sort_key("2001:db8::/32", "2001:db8::/32");
}

#[test]
fn test_mixed_ipv4_ipv6_sort_key_is_ipv4_first() {
    assert_sort_key("2001:db8::/32 10.0.0.0/8", "10.0.0.0/8");
}

#[test]
fn test_mixed_ipv4_ipv6_sort_key_ipv6_first_flag() {
    let opts = SortOptions {
        ipv6_first: true,
        reverse: false,
    };
    match classify_line("2001:db8::/32 10.0.0.0/8", &opts) {
        ClassifiedLine::HasIp { sort_key, .. } => {
            assert_eq!(sort_key, net("2001:db8::/32"));
        }
        _ => panic!("expected HasIp"),
    }
}
