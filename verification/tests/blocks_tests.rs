use ipsort::blocks::{deduplicate_blocks, sort_blocks, sort_inline, DeduplicateError};
use ipsort::classify::{classify_line, ClassifiedLine, Span};
use ipsort::output::{render_line, IpsOnlyMode, OutputOptions};
use ipsort::parse::{parse_token, Net};
use ipsort::sort::SortOptions;

fn opts() -> SortOptions {
    SortOptions::default()
}

fn classify(line: &str) -> ClassifiedLine {
    classify_line(line, &opts())
}

fn sort_key(line: &ClassifiedLine) -> Net {
    match line {
        ClassifiedLine::HasIp { sort_key, .. } => *sort_key,
        ClassifiedLine::NoIp(s) => {
            panic!("expected HasIp, got NoIp({s:?})")
        }
    }
}

fn original(line: &ClassifiedLine) -> String {
    match line {
        ClassifiedLine::HasIp { spans, .. } => spans
            .iter()
            .map(|s| match s {
                Span::Ip(t) => t.original(),
                Span::NonIp(s) => s.as_str(),
            })
            .collect(),
        ClassifiedLine::NoIp(s) => s.clone(),
    }
}

fn net(s: &str) -> Net {
    parse_token(s).network().unwrap()
}

fn ip_count(line: &ClassifiedLine) -> usize {
    match line {
        ClassifiedLine::HasIp { spans, .. } => {
            spans.iter().filter(|s| matches!(s, Span::Ip(_))).count()
        }
        ClassifiedLine::NoIp(_) => 0,
    }
}

fn dedup(
    lines: Vec<ClassifiedLine>,
) -> Result<Vec<ClassifiedLine>, DeduplicateError> {
    deduplicate_blocks(lines, &IpsOnlyMode::Off)
}

fn dedup_flat(
    lines: Vec<ClassifiedLine>,
) -> Result<Vec<ClassifiedLine>, DeduplicateError> {
    deduplicate_blocks(lines, &IpsOnlyMode::Flat)
}

fn dedup_off(
    lines: Vec<ClassifiedLine>,
) -> Result<Vec<ClassifiedLine>, DeduplicateError> {
    deduplicate_blocks(lines, &IpsOnlyMode::Off)
}

fn render(line: &ClassifiedLine) -> String {
    render_line(line, &OutputOptions::default(), &opts()).join("\n")
}

#[test]
fn test_single_block_sorted() {
    let lines = vec![
        classify("192.168.0.0/16"),
        classify("10.0.0.0/8"),
        classify("172.16.0.0/12"),
    ];
    let result = sort_blocks(lines, &opts());
    assert_eq!(sort_key(&result[0]), net("10.0.0.0/8"));
    assert_eq!(sort_key(&result[1]), net("172.16.0.0/12"));
    assert_eq!(sort_key(&result[2]), net("192.168.0.0/16"));
}

#[test]
fn blocks_test_already_sorted_unchanged() {
    let lines = vec![
        classify("10.0.0.0/8"),
        classify("172.16.0.0/12"),
        classify("192.168.0.0/16"),
    ];
    let result = sort_blocks(lines, &opts());
    assert_eq!(sort_key(&result[0]), net("10.0.0.0/8"));
    assert_eq!(sort_key(&result[1]), net("172.16.0.0/12"));
    assert_eq!(sort_key(&result[2]), net("192.168.0.0/16"));
}

#[test]
fn test_single_line_unchanged() {
    let lines = vec![classify("10.0.0.0/8")];
    let result = sort_blocks(lines, &opts());
    assert_eq!(result.len(), 1);
    assert_eq!(sort_key(&result[0]), net("10.0.0.0/8"));
}

#[test]
fn test_two_blocks_sorted_independently() {
    let lines = vec![
        classify("192.168.0.0/16"),
        classify("10.0.0.0/8"),
        classify(""), // separator
        classify("172.16.2.0/24"),
        classify("172.16.1.0/24"),
    ];
    let result = sort_blocks(lines, &opts());

    // First block
    assert_eq!(sort_key(&result[0]), net("10.0.0.0/8"));
    assert_eq!(sort_key(&result[1]), net("192.168.0.0/16"));
    // Separator
    assert!(matches!(&result[2], ClassifiedLine::NoIp(_)));
    // Second block
    assert_eq!(sort_key(&result[3]), net("172.16.1.0/24"));
    assert_eq!(sort_key(&result[4]), net("172.16.2.0/24"));
}

#[test]
fn test_separator_preserved_in_position() {
    let lines = vec![
        classify("192.168.0.0/16"),
        classify("# comment"),
        classify("10.0.0.0/8"),
    ];
    let result = sort_blocks(lines, &opts());
    assert!(matches!(&result[1], ClassifiedLine::NoIp(_)));
    assert_eq!(original(&result[1]), "# comment");
}

#[test]
fn test_multiple_consecutive_separators_preserved() {
    let lines = vec![
        classify("192.168.0.0/16"),
        classify(""),
        classify("# comment"),
        classify(""),
        classify("10.0.0.0/8"),
    ];
    let result = sort_blocks(lines, &opts());
    assert_eq!(result.len(), 5);
    assert!(matches!(&result[1], ClassifiedLine::NoIp(_)));
    assert!(matches!(&result[2], ClassifiedLine::NoIp(_)));
    assert!(matches!(&result[3], ClassifiedLine::NoIp(_)));
}

#[test]
fn test_leading_separator_preserved() {
    let lines = vec![
        classify("# header"),
        classify("192.168.0.0/16"),
        classify("10.0.0.0/8"),
    ];
    let result = sort_blocks(lines, &opts());
    assert!(matches!(&result[0], ClassifiedLine::NoIp(_)));
    assert_eq!(original(&result[0]), "# header");
    assert_eq!(sort_key(&result[1]), net("10.0.0.0/8"));
    assert_eq!(sort_key(&result[2]), net("192.168.0.0/16"));
}

#[test]
fn test_trailing_separator_preserved() {
    let lines = vec![
        classify("192.168.0.0/16"),
        classify("10.0.0.0/8"),
        classify("# footer"),
    ];
    let result = sort_blocks(lines, &opts());
    assert_eq!(sort_key(&result[0]), net("10.0.0.0/8"));
    assert_eq!(sort_key(&result[1]), net("192.168.0.0/16"));
    assert!(matches!(&result[2], ClassifiedLine::NoIp(_)));
    assert_eq!(original(&result[2]), "# footer");
}

#[test]
fn test_empty_input() {
    let result = sort_blocks(vec![], &opts());
    assert!(result.is_empty());
}

#[test]
fn test_all_no_ip() {
    let lines =
        vec![classify("# just comments"), classify(""), classify("---")];
    let result = sort_blocks(lines, &opts());
    assert_eq!(result.len(), 3);
    assert!(result.iter().all(|l| matches!(l, ClassifiedLine::NoIp(_))));
}

#[test]
fn test_output_length_preserved() {
    let lines = vec![
        classify("192.168.0.0/16"),
        classify("# comment"),
        classify("10.0.0.0/8"),
        classify("172.16.0.0/12"),
    ];
    let len = lines.len();
    let result = sort_blocks(lines, &opts());
    assert_eq!(result.len(), len);
}

#[test]
fn blocks_test_same_network_shorter_prefix_first() {
    let lines = vec![
        classify("10.0.0.0/24"),
        classify("10.0.0.0/8"),
        classify("10.0.0.0/16"),
    ];
    let result = sort_blocks(lines, &opts());
    assert_eq!(sort_key(&result[0]), net("10.0.0.0/8"));
    assert_eq!(sort_key(&result[1]), net("10.0.0.0/16"));
    assert_eq!(sort_key(&result[2]), net("10.0.0.0/24"));
}

#[test]
fn test_ipv6_block_sorted() {
    let lines =
        vec![classify("2001:db8:1::/48"), classify("2001:db8::/32")];
    let result = sort_blocks(lines, &opts());
    assert_eq!(sort_key(&result[0]), net("2001:db8::/32"));
    assert_eq!(sort_key(&result[1]), net("2001:db8:1::/48"));
}

#[test]
fn test_mixed_ipv4_before_ipv6_default() {
    let lines = vec![classify("2001:db8::/32"), classify("10.0.0.0/8")];
    let result = sort_blocks(lines, &opts());
    assert_eq!(sort_key(&result[0]), net("10.0.0.0/8"));
    assert_eq!(sort_key(&result[1]), net("2001:db8::/32"));
}

#[test]
fn blocks_test_mixed_ipv6_first_flag() {
    let opts = SortOptions {
        ipv6_first: true,
        reverse: false,
    };
    let lines = vec![classify("10.0.0.0/8"), classify("2001:db8::/32")];
    let result = sort_blocks(lines, &opts);
    assert_eq!(sort_key(&result[0]), net("2001:db8::/32"));
    assert_eq!(sort_key(&result[1]), net("10.0.0.0/8"));
}

#[test]
fn test_decorated_lines_sorted_by_sort_key() {
    let lines =
        vec![classify("- 192.168.0.0/16"), classify("- 10.0.0.0/8")];
    let result = sort_blocks(lines, &opts());
    assert_eq!(sort_key(&result[0]), net("10.0.0.0/8"));
    assert_eq!(sort_key(&result[1]), net("192.168.0.0/16"));
}

#[test]
fn test_decorated_lines_original_preserved() {
    let lines =
        vec![classify("- 192.168.0.0/16"), classify("- 10.0.0.0/8")];
    let result = sort_blocks(lines, &opts());
    assert_eq!(original(&result[0]), "- 10.0.0.0/8");
    assert_eq!(original(&result[1]), "- 192.168.0.0/16");
}

#[test]
fn test_no_duplicates_unchanged() {
    let lines = vec![classify("10.0.0.0/8"), classify("192.168.0.0/16")];
    let result = dedup(lines).unwrap();
    assert_eq!(result.len(), 2);
}

#[test]
fn test_duplicate_single_ip_dropped() {
    let lines = vec![
        classify("10.0.0.0/8"),
        classify("10.0.0.0/8"),
        classify("192.168.0.0/16"),
    ];
    let result = dedup(lines).unwrap();
    assert_eq!(result.len(), 2);
    assert_eq!(sort_key(&result[0]), net("10.0.0.0/8"));
    assert_eq!(sort_key(&result[1]), net("192.168.0.0/16"));
}

#[test]
fn test_host_bits_normalized_for_dedup() {
    // 10.0.0.5/24 and 10.0.0.0/24 are the same after normalization
    let lines = vec![classify("10.0.0.0/24"), classify("10.0.0.5/24")];
    let result = dedup(lines).unwrap();
    assert_eq!(result.len(), 1);
}

#[test]
fn test_different_prefix_lengths_not_deduped() {
    // 10.0.0.0/8 and 10.0.0.0/24 are different
    let lines = vec![classify("10.0.0.0/8"), classify("10.0.0.0/24")];
    let result = dedup(lines).unwrap();
    assert_eq!(result.len(), 2);
}

#[test]
fn test_no_ip_lines_pass_through() {
    let lines = vec![
        classify("10.0.0.0/8"),
        classify("# comment"),
        classify("10.0.0.0/8"),
    ];
    let result = dedup(lines).unwrap();
    assert_eq!(result.len(), 2); // comment + first IP, second IP dropped
    assert!(matches!(&result[1], ClassifiedLine::NoIp(_)));
}

#[test]
fn test_decorated_duplicate_dropped() {
    let lines = vec![classify("- 10.0.0.0/8"), classify("- 10.0.0.0/8")];
    let result = dedup(lines).unwrap();
    assert_eq!(result.len(), 1);
}

#[test]
fn test_multi_ip_duplicate_errors() {
    let lines = vec![
        classify("10.0.0.0/8"),
        classify("192.168.0.0/16 10.0.0.0/8"),
    ];
    assert!(dedup(lines).is_err());
}

#[test]
fn test_multi_ip_error_contains_duplicate_ip() {
    let lines = vec![
        classify("10.0.0.0/8"),
        classify("192.168.0.0/16 10.0.0.0/8"),
    ];
    let err = dedup(lines).unwrap_err();
    assert_eq!(err.duplicate_ip, net("10.0.0.0/8"));
}

#[test]
fn test_multi_ip_no_duplicates_ok() {
    let lines = vec![
        classify("10.0.0.0/8 192.168.0.0/16"),
        classify("172.16.0.0/12"),
    ];
    assert!(dedup(lines).is_ok());
}

#[test]
fn test_multi_ip_non_sort_key_duplicate_also_errors() {
    // 192.168.0.0/16 is not the sort key of the second line but is still a
    // dupe
    let lines = vec![
        classify("192.168.0.0/16"),
        classify("10.0.0.0/8 192.168.0.0/16"),
    ];
    assert!(dedup(lines).is_err());
}

#[test]
fn test_ips_only_duplicate_skipped_not_errored() {
    let lines = vec![
        classify("10.0.0.0/8"),
        classify("192.168.0.0/16 10.0.0.0/8"),
    ];
    assert!(dedup_flat(lines).is_ok());
}

#[test]
fn test_ips_only_duplicate_ip_removed_from_line() {
    let lines = vec![
        classify("10.0.0.0/8"),
        classify("192.168.0.0/16 10.0.0.0/8"),
    ];
    let result = dedup_flat(lines).unwrap();
    // Second line should only have 192.168.0.0/16
    assert_eq!(result.len(), 2);
    assert_eq!(sort_key(&result[1]), net("192.168.0.0/16"));
}

#[test]
fn test_ips_only_all_dupes_line_dropped() {
    let lines = vec![classify("10.0.0.0/8"), classify("10.0.0.0/8")];
    let result = dedup_flat(lines).unwrap();
    assert_eq!(result.len(), 1);
}

#[test]
fn test_ips_only_partial_dedup_keeps_unique_ips() {
    let lines = vec![
        classify("10.0.0.0/8 192.168.0.0/16"),
        classify("10.0.0.0/8 172.16.0.0/12"),
    ];
    let result = dedup_flat(lines).unwrap();
    // First line unchanged, second line only has 172.16.0.0/12
    assert_eq!(result.len(), 2);
    assert_eq!(sort_key(&result[1]), net("172.16.0.0/12"));
}

#[test]
fn test_intra_line_dup_removed_off_mode() {
    let lines = vec![classify("10.0.0.0/8 10.0.0.0/8 192.168.0.0/16")];
    let result = dedup_off(lines).unwrap();
    assert_eq!(result.len(), 1);
    assert_eq!(ip_count(&result[0]), 2);
    assert_eq!(sort_key(&result[0]), net("10.0.0.0/8"));
}

#[test]
fn test_intra_line_all_same_ips_becomes_single() {
    let lines = vec![classify("10.0.0.0/8 10.0.0.0/8")];
    let result = dedup_off(lines).unwrap();
    assert_eq!(result.len(), 1);
    assert_eq!(ip_count(&result[0]), 1);
}

#[test]
fn test_intra_line_single_arg_dedup() {
    let lines = vec![classify("10.10.10.10/32 10.10.10.10/32")];
    let result = dedup_off(lines).unwrap();
    assert_eq!(result.len(), 1);
    assert_eq!(ip_count(&result[0]), 1);
    assert_eq!(sort_key(&result[0]), net("10.10.10.10/32"));
}

#[test]
fn test_intra_line_dedup_then_inter_line_dedup() {
    // Line 1: 10.0.0.0/8 (single)
    // Line 2: 10.0.0.0/8 10.0.0.0/8 192.168.0.0/16
    //   -> after intra dedup: 10.0.0.0/8 192.168.0.0/16
    //   -> 10.0.0.0/8 is now an inter-line dup (error in Off mode)
    let lines = vec![
        classify("10.0.0.0/8"),
        classify("10.0.0.0/8 10.0.0.0/8 192.168.0.0/16"),
    ];
    assert!(dedup_off(lines).is_err());
}

#[test]
fn test_intra_line_dedup_flat_mode() {
    let lines = vec![classify("10.0.0.0/8 10.0.0.0/8 192.168.0.0/16")];
    let result = dedup_flat(lines).unwrap();
    assert_eq!(result.len(), 1);
    assert_eq!(ip_count(&result[0]), 2);
}

#[test]
fn test_intra_line_all_dupes_line_dropped() {
    // All IPs are the same - after intra dedup only one remains,
    // then inter dedup sees it's new, so line is kept with one IP
    let lines = vec![classify("10.0.0.0/8 10.0.0.0/8")];
    let result = dedup_off(lines).unwrap();
    assert_eq!(result.len(), 1);
    assert_eq!(ip_count(&result[0]), 1);
}

#[test]
fn test_inline_single_block_same_as_sort_blocks() {
    let lines = vec![
        classify("192.168.0.0/16"),
        classify("10.0.0.0/8"),
        classify("172.16.0.0/12"),
    ];
    let result = sort_inline(lines, &opts(), false);
    assert_eq!(sort_key(&result[0]), net("10.0.0.0/8"));
    assert_eq!(sort_key(&result[1]), net("172.16.0.0/12"));
    assert_eq!(sort_key(&result[2]), net("192.168.0.0/16"));
}

#[test]
fn blocks_test_inline_crosses_block_separator() {
    // With sort_blocks these would sort independently per block.
    // With sort_inline all four IPs sort together globally.
    let lines = vec![
        classify("192.168.0.0/16"),
        classify(""), // separator (ignored by inline)
        classify("10.0.0.0/8"),
    ];
    let result = sort_inline(lines, &opts(), false);
    // Lowest IP should be in first HasIp position (index 0)
    assert_eq!(sort_key(&result[0]), net("10.0.0.0/8"));
    // Separator preserved in place
    assert!(matches!(&result[1], ClassifiedLine::NoIp(_)));
    assert_eq!(sort_key(&result[2]), net("192.168.0.0/16"));
}

#[test]
fn test_inline_multi_ip_lines_redistributed() {
    // Input: two lines each with two IPs in reverse order
    // Inline sort should redistribute all four IPs globally
    let lines = vec![
        classify("192.168.0.0/16 172.16.0.0/12"),
        classify("10.0.0.1 10.0.0.0/8"),
    ];
    let result = sort_inline(lines, &opts(), false);
    // All four IPs sorted: 10.0.0.0/8, 10.0.0.1/32, 172.16.0.0/12,
    // 192.168.0.0/16
    // Line 1 gets the two lowest, line 2 gets the two highest
    assert_eq!(sort_key(&result[0]), net("10.0.0.0/8"));
    assert_eq!(sort_key(&result[1]), net("172.16.0.0/12"));
}

#[test]
fn test_inline_no_ip_lines_preserved() {
    let lines = vec![
        classify("# comment"),
        classify("192.168.0.0/16"),
        classify("10.0.0.0/8"),
    ];
    let result = sort_inline(lines, &opts(), false);
    assert!(matches!(&result[0], ClassifiedLine::NoIp(_)));
    assert_eq!(sort_key(&result[1]), net("10.0.0.0/8"));
    assert_eq!(sort_key(&result[2]), net("192.168.0.0/16"));
}

#[test]
fn test_inline_decoration_preserved() {
    let lines =
        vec![classify("- 192.168.0.0/16"), classify("- 10.0.0.0/8")];
    let result = sort_inline(lines, &opts(), false);
    assert_eq!(render(&result[0]), "- 10.0.0.0/8");
    assert_eq!(render(&result[1]), "- 192.168.0.0/16");
}

#[test]
fn test_inline_sort_key_recalculated() {
    let lines = vec![
        classify("192.168.0.0/16 172.16.0.0/12"),
        classify("10.0.0.0/8 10.0.1.0/24"),
    ];
    let result = sort_inline(lines, &opts(), false);
    // sort_key should reflect the redistributed IPs, not the originals
    assert_eq!(sort_key(&result[0]), net("10.0.0.0/8"));
    assert_eq!(sort_key(&result[1]), net("172.16.0.0/12"));
}

#[test]
fn test_inline_unique_removes_duplicates_from_pool() {
    let lines = vec![
        classify("10.0.0.0/8"),
        classify("192.168.0.0/16"),
        classify("10.0.0.0/8"),
    ];
    let result = sort_inline(lines, &opts(), true);
    // Pool after dedup: [10.0.0.0/8, 192.168.0.0/16]
    // Two unique IPs redistributed into three slots (third line gets no
    // IP)
    assert_eq!(result.len(), 3);
    assert_eq!(sort_key(&result[0]), net("10.0.0.0/8"));
    assert_eq!(sort_key(&result[1]), net("192.168.0.0/16"));
}

#[test]
fn test_inline_unique_no_duplicates_unchanged() {
    let lines = vec![classify("192.168.0.0/16"), classify("10.0.0.0/8")];
    let result = sort_inline(lines, &opts(), true);
    assert_eq!(result.len(), 2);
    assert_eq!(sort_key(&result[0]), net("10.0.0.0/8"));
    assert_eq!(sort_key(&result[1]), net("192.168.0.0/16"));
}

#[test]
fn test_inline_mixed_ipv4_ipv6() {
    let lines = vec![classify("2001:db8::/32"), classify("10.0.0.0/8")];
    let result = sort_inline(lines, &opts(), false);
    assert_eq!(sort_key(&result[0]), net("10.0.0.0/8"));
    assert_eq!(sort_key(&result[1]), net("2001:db8::/32"));
}

#[test]
fn test_inline_reverse() {
    let opts = SortOptions {
        reverse: true,
        ..Default::default()
    };
    let lines = vec![classify("10.0.0.0/8"), classify("192.168.0.0/16")];
    let result = sort_inline(lines, &opts, false);
    assert_eq!(sort_key(&result[0]), net("192.168.0.0/16"));
    assert_eq!(sort_key(&result[1]), net("10.0.0.0/8"));
}
