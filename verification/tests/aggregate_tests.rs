use ipsort::blocks::aggregate::{aggregate_block, aggregate_blocks};
use ipsort::blocks::sort_blocks;
use ipsort::classify::{classify_line, ClassifiedLine};
use ipsort::output::{render_line, OutputOptions};
use ipsort::parse::{parse_token, Net};
use ipsort::sort::SortOptions;

fn opts() -> SortOptions {
    SortOptions::default()
}

fn net(s: &str) -> Net {
    parse_token(s).network().unwrap()
}

fn classify_all(lines: &[&str]) -> Vec<ClassifiedLine> {
    lines.iter().map(|l| classify_line(l, &opts())).collect()
}

fn render_all(lines: &[ClassifiedLine]) -> Vec<String> {
    lines
        .iter()
        .flat_map(|l| render_line(l, &OutputOptions::default(), &opts()))
        .collect()
}

fn aggregate_sorted(lines: &[&str], sort: &SortOptions) -> Vec<String> {
    let sorted = sort_blocks(
        lines.iter().map(|l| classify_line(l, sort)).collect(),
        sort,
    );
    let result = aggregate_blocks(sorted, sort).unwrap();
    result
        .iter()
        .flat_map(|l| render_line(l, &OutputOptions::default(), sort))
        .collect()
}

#[test]
fn test_aggregate_blocks_merges_two_halves() {
    assert_eq!(
        aggregate_sorted(&["10.0.0.0/25", "10.0.0.128/25"], &opts()),
        vec!["10.0.0.0/24"]
    );
}

#[test]
fn test_aggregate_blocks_merges_four_subnets() {
    assert_eq!(
        aggregate_sorted(
            &["10.0.0.0/24", "10.0.1.0/24", "10.0.2.0/24", "10.0.3.0/24"],
            &opts()
        ),
        vec!["10.0.0.0/22"]
    );
}

#[test]
fn test_aggregate_blocks_first_line_keeps_decoration() {
    assert_eq!(
        aggregate_sorted(&["first: 10.0.0.0/25", "second: 10.0.0.128/25"], &opts()),
        vec!["first: 10.0.0.0/24"]
    );
}

#[test]
fn test_aggregate_blocks_unmergeable_unchanged() {
    assert_eq!(
        aggregate_sorted(&["10.0.0.5/24", "192.168.0.0/24"], &opts()),
        vec!["10.0.0.5/24", "192.168.0.0/24"]
    );
}

#[test]
fn test_aggregate_blocks_supernet_absorbs_subnet() {
    assert_eq!(
        aggregate_sorted(&["- 10.1.0.0/16", "- 10.0.0.0/8"], &opts()),
        vec!["- 10.0.0.0/8"]
    );
}

#[test]
fn test_aggregate_blocks_duplicates_merge() {
    assert_eq!(
        aggregate_sorted(&["10.0.0.0/8", "10.0.0.0/8"], &opts()),
        vec!["10.0.0.0/8"]
    );
}

#[test]
fn test_aggregate_blocks_per_block_with_separator() {
    assert_eq!(
        aggregate_sorted(
            &["10.0.0.128/25", "10.0.0.0/25", "# dmz", "192.168.0.0/25", "192.168.0.128/25"],
            &opts()
        ),
        vec!["10.0.0.0/24", "# dmz", "192.168.0.0/24"]
    );
}

#[test]
fn test_aggregate_blocks_ipv6() {
    assert_eq!(
        aggregate_sorted(&["2001:db8:8000::/33", "2001:db8::/33"], &opts()),
        vec!["2001:db8::/32"]
    );
}

#[test]
fn test_aggregate_blocks_reverse_order() {
    let rev = SortOptions { ipv6_first: false, reverse: true };
    assert_eq!(
        aggregate_sorted(
            &["10.0.0.0/25", "10.0.0.128/25", "192.168.0.0/25", "192.168.0.128/25"],
            &rev
        ),
        vec!["192.168.0.0/24", "10.0.0.0/24"]
    );
}

#[test]
fn test_aggregate_blocks_multi_ip_line_error() {
    let sorted = sort_blocks(
        classify_all(&["10.0.0.0/25 192.168.0.0/24", "10.0.0.128/25"]),
        &opts(),
    );
    let err = aggregate_blocks(sorted, &opts()).unwrap_err();
    assert_eq!(err.line, "10.0.0.0/25 192.168.0.0/24");
    assert_eq!(err.aggregate, net("10.0.0.0/24"));
}

#[test]
fn test_aggregate_blocks_multi_ip_line_untouched_is_fine() {
    let sorted = sort_blocks(
        classify_all(&["10.0.0.0/24 192.168.0.0/24", "172.16.0.0/12"]),
        &opts(),
    );
    let result = aggregate_blocks(sorted, &opts()).unwrap();
    assert_eq!(
        render_all(&result),
        vec!["10.0.0.0/24 192.168.0.0/24", "172.16.0.0/12"]
    );
}

#[test]
fn test_aggregate_block_with_given_aggregates() {
    let block = classify_all(&["a 10.0.0.0/25", "b 10.0.0.128/25", "c 192.168.0.0/24"]);
    let aggs = vec![net("10.0.0.0/24"), net("192.168.0.0/24")];
    let result = aggregate_block(block, &aggs).unwrap();
    assert_eq!(render_all(&result), vec!["a 10.0.0.0/24", "c 192.168.0.0/24"]);
    match &result[0] {
        ClassifiedLine::HasIp { sort_key, .. } => assert_eq!(*sort_key, net("10.0.0.0/24")),
        ClassifiedLine::NoIp(_) => panic!("expected HasIp"),
    }
}

#[test]
fn test_aggregate_block_restating_aggregates_change_nothing() {
    let lines = ["- 10.0.0.0/24", "- 192.168.0.0/24"];
    let aggs = vec![net("10.0.0.0/24"), net("192.168.0.0/24")];
    let result = aggregate_block(classify_all(&lines), &aggs).unwrap();
    assert_eq!(render_all(&result), vec!["- 10.0.0.0/24", "- 192.168.0.0/24"]);
}

#[test]
fn test_aggregate_block_no_cover_keeps_line() {
    let result = aggregate_block(classify_all(&["10.0.0.0/24"]), &vec![]).unwrap();
    assert_eq!(render_all(&result), vec!["10.0.0.0/24"]);
}

#[test]
fn test_aggregate_block_multi_ip_error_names_first_merge() {
    let block = classify_all(&["10.0.0.128/25", "x 10.0.0.0/25 172.16.0.0/12"]);
    let aggs = vec![net("10.0.0.0/24"), net("172.16.0.0/12")];
    let err = aggregate_block(block, &aggs).unwrap_err();
    assert_eq!(err.line, "x 10.0.0.0/25 172.16.0.0/12");
    assert_eq!(err.aggregate, net("10.0.0.0/24"));
}

#[test]
fn test_aggregate_single_ip_lines_always_succeed() {
    let sorted = sort_blocks(
        classify_all(&["10.0.0.0/8", "10.0.0.0/9", "10.128.0.0/9", "# x", "::/1", "8000::/1"]),
        &opts(),
    );
    let result = aggregate_blocks(sorted, &opts()).unwrap();
    assert_eq!(render_all(&result), vec!["10.0.0.0/8", "# x", "::/0"]);
}

#[test]
fn test_aggregate_blocks_output_covers_input() {
    let input = ["10.0.0.0/25", "10.0.0.128/26", "10.0.0.192/26", "10.0.1.7/32", "# x", "::/1", "::1"];
    let sorted = sort_blocks(classify_all(&input), &opts());
    let result = aggregate_blocks(sorted, &opts()).unwrap();
    assert_eq!(
        render_all(&result),
        vec!["10.0.0.0/24", "10.0.1.7/32", "# x", "::/1"]
    );
}
