use ipsort::classify::classify_line;
use ipsort::output::{render_line, IpsOnlyMode, OutputOptions};
use ipsort::sort::SortOptions;

fn sort_opts() -> SortOptions {
    SortOptions::default()
}

fn out_opts() -> OutputOptions {
    OutputOptions::default()
}

fn render(line: &str) -> Vec<String> {
    let classified = classify_line(line, &sort_opts());
    render_line(&classified, &out_opts(), &sort_opts())
}

fn render_with(line: &str, out_opts: &OutputOptions) -> Vec<String> {
    let classified = classify_line(line, &sort_opts());
    render_line(&classified, out_opts, &sort_opts())
}

fn render_with_sort(line: &str, sort_opts: &SortOptions) -> Vec<String> {
    let classified = classify_line(line, sort_opts);
    render_line(&classified, &out_opts(), sort_opts)
}

#[test]
fn test_no_ip_passthrough_default() {
    assert_eq!(render("# comment"), vec!["# comment"]);
}

#[test]
fn test_empty_line_passthrough_default() {
    assert_eq!(render(""), vec![""]);
}

#[test]
fn test_yaml_separator_passthrough_default() {
    assert_eq!(render("---"), vec!["---"]);
}

#[test]
fn test_no_ip_passthrough_with_structure() {
    let opts = OutputOptions {
        ips_only: IpsOnlyMode::WithStructure,
        ..Default::default()
    };
    assert_eq!(render_with("# comment", &opts), vec!["# comment"]);
}

#[test]
fn test_no_ip_discarded_flat() {
    let opts = OutputOptions {
        ips_only: IpsOnlyMode::Flat,
        ..Default::default()
    };
    assert_eq!(render_with("# comment", &opts), Vec::<String>::new());
}

#[test]
fn test_empty_line_discarded_flat() {
    let opts = OutputOptions {
        ips_only: IpsOnlyMode::Flat,
        ..Default::default()
    };
    assert_eq!(render_with("", &opts), Vec::<String>::new());
}

#[test]
fn test_plain_cidr_unchanged() {
    assert_eq!(render("10.0.0.0/8"), vec!["10.0.0.0/8"]);
}

#[test]
fn test_bare_ip_preserved() {
    assert_eq!(render("192.168.1.1"), vec!["192.168.1.1"]);
}

#[test]
fn test_yaml_list_item_preserved() {
    assert_eq!(render("- 10.0.0.0/8"), vec!["- 10.0.0.0/8"]);
}

#[test]
fn output_test_yaml_key_value_preserved() {
    assert_eq!(
        render("network: 172.16.0.0/12"),
        vec!["network: 172.16.0.0/12"]
    );
}

#[test]
fn test_quoted_cidr_preserved() {
    assert_eq!(render("\"10.0.0.0/8\""), vec!["\"10.0.0.0/8\""]);
}

#[test]
fn test_two_ips_sorted() {
    assert_eq!(
        render("192.168.0.0/16 10.0.0.0/8"),
        vec!["10.0.0.0/8 192.168.0.0/16"]
    );
}

#[test]
fn test_three_ips_sorted() {
    assert_eq!(
        render("192.168.0.0/16 10.0.0.0/8 172.16.0.0/12"),
        vec!["10.0.0.0/8 172.16.0.0/12 192.168.0.0/16"]
    );
}

#[test]
fn test_two_ips_comma_separated_sorted() {
    assert_eq!(
        render("192.168.0.0/16,10.0.0.0/8"),
        vec!["10.0.0.0/8,192.168.0.0/16"]
    );
}

#[test]
fn test_decoration_preserved_after_sort() {
    assert_eq!(
        render("somekey: 192.168.1.0/24 10.0.0.0/8"),
        vec!["somekey: 10.0.0.0/8 192.168.1.0/24"]
    );
}

#[test]
fn test_quoted_ips_sorted() {
    assert_eq!(
        render("\"192.168.0.0/16\", \"10.0.0.0/8\""),
        vec!["\"10.0.0.0/8\", \"192.168.0.0/16\""]
    );
}

#[test]
fn output_test_already_sorted_unchanged() {
    assert_eq!(
        render("10.0.0.0/8 192.168.0.0/16"),
        vec!["10.0.0.0/8 192.168.0.0/16"]
    );
}

#[test]
fn output_test_same_network_shorter_prefix_first() {
    assert_eq!(
        render("10.0.0.0/24 10.0.0.0/8"),
        vec!["10.0.0.0/8 10.0.0.0/24"]
    );
}

#[test]
fn test_host_bits_original_preserved_by_default() {
    assert_eq!(render("10.0.0.5/24"), vec!["10.0.0.5/24"]);
}

#[test]
fn test_normalize_clean_cidr_unchanged() {
    let opts = OutputOptions {
        normalize: true,
        ..Default::default()
    };
    assert_eq!(render_with("10.0.0.0/8", &opts), vec!["10.0.0.0/8"]);
}

#[test]
fn test_normalize_host_bits_cleared() {
    let opts = OutputOptions {
        normalize: true,
        ..Default::default()
    };
    assert_eq!(render_with("10.0.0.5/24", &opts), vec!["10.0.0.0/24"]);
}

#[test]
fn test_normalize_bare_ip_gets_prefix() {
    let opts = OutputOptions {
        normalize: true,
        ..Default::default()
    };
    assert_eq!(render_with("192.168.1.1", &opts), vec!["192.168.1.1/32"]);
}

#[test]
fn test_normalize_bare_ipv6_gets_prefix() {
    let opts = OutputOptions {
        normalize: true,
        ..Default::default()
    };
    assert_eq!(render_with("2001:db8::1", &opts), vec!["2001:db8::1/128"]);
}

#[test]
fn test_normalize_decoration_preserved() {
    let opts = OutputOptions {
        normalize: true,
        ..Default::default()
    };
    assert_eq!(render_with("- 10.0.0.5/24", &opts), vec!["- 10.0.0.0/24"]);
}

#[test]
fn test_normalize_multiple_ips() {
    let opts = OutputOptions {
        normalize: true,
        ..Default::default()
    };
    assert_eq!(
        render_with("192.168.1.50/24 10.0.0.5/8", &opts),
        vec!["10.0.0.0/8 192.168.1.0/24"]
    );
}

#[test]
fn test_ips_only_flat_single_ip() {
    let opts = OutputOptions {
        ips_only: IpsOnlyMode::Flat,
        ..Default::default()
    };
    assert_eq!(render_with("10.0.0.0/8", &opts), vec!["10.0.0.0/8"]);
}

#[test]
fn test_ips_only_flat_strips_decoration() {
    let opts = OutputOptions {
        ips_only: IpsOnlyMode::Flat,
        ..Default::default()
    };
    assert_eq!(render_with("- 10.0.0.0/8", &opts), vec!["10.0.0.0/8"]);
}

#[test]
fn test_ips_only_flat_two_ips_two_lines() {
    let opts = OutputOptions {
        ips_only: IpsOnlyMode::Flat,
        ..Default::default()
    };
    assert_eq!(
        render_with("192.168.0.0/16 10.0.0.0/8", &opts),
        vec!["10.0.0.0/8", "192.168.0.0/16"]
    );
}

#[test]
fn test_ips_only_flat_strips_yaml_key() {
    let opts = OutputOptions {
        ips_only: IpsOnlyMode::Flat,
        ..Default::default()
    };
    assert_eq!(
        render_with("somekey: 192.168.1.0/24 10.0.0.0/8", &opts),
        vec!["10.0.0.0/8", "192.168.1.0/24"]
    );
}

#[test]
fn test_ips_only_flat_preserves_original_token() {
    let opts = OutputOptions {
        ips_only: IpsOnlyMode::Flat,
        ..Default::default()
    };
    assert_eq!(render_with("10.0.0.5/24", &opts), vec!["10.0.0.5/24"]);
}

#[test]
fn test_ips_only_with_structure_single_ip() {
    let opts = OutputOptions {
        ips_only: IpsOnlyMode::WithStructure,
        ..Default::default()
    };
    assert_eq!(render_with("10.0.0.0/8", &opts), vec!["10.0.0.0/8"]);
}

#[test]
fn output_test_ips_only_with_structure_strips_decoration() {
    let opts = OutputOptions {
        ips_only: IpsOnlyMode::WithStructure,
        ..Default::default()
    };
    assert_eq!(render_with("- 10.0.0.0/8", &opts), vec!["10.0.0.0/8"]);
}

#[test]
fn test_ips_only_with_structure_two_ips_two_lines() {
    let opts = OutputOptions {
        ips_only: IpsOnlyMode::WithStructure,
        ..Default::default()
    };
    assert_eq!(
        render_with("192.168.0.0/16 10.0.0.0/8", &opts),
        vec!["10.0.0.0/8", "192.168.0.0/16"]
    );
}

#[test]
fn test_ips_only_with_structure_preserves_no_ip_line() {
    let opts = OutputOptions {
        ips_only: IpsOnlyMode::WithStructure,
        ..Default::default()
    };
    assert_eq!(render_with("# comment", &opts), vec!["# comment"]);
}

#[test]
fn test_ips_only_flat_with_normalize() {
    let opts = OutputOptions {
        ips_only: IpsOnlyMode::Flat,
        normalize: true,
    };
    assert_eq!(render_with("- 10.0.0.5/24", &opts), vec!["10.0.0.0/24"]);
}

#[test]
fn test_ips_only_flat_normalize_bare_ip() {
    let opts = OutputOptions {
        ips_only: IpsOnlyMode::Flat,
        normalize: true,
    };
    assert_eq!(render_with("192.168.1.1", &opts), vec!["192.168.1.1/32"]);
}

#[test]
fn test_ips_only_with_structure_normalize() {
    let opts = OutputOptions {
        ips_only: IpsOnlyMode::WithStructure,
        normalize: true,
    };
    assert_eq!(render_with("- 10.0.0.5/24", &opts), vec!["10.0.0.0/24"]);
}

#[test]
fn test_ipv6_single() {
    assert_eq!(render("2001:db8::/32"), vec!["2001:db8::/32"]);
}

#[test]
fn test_mixed_ipv4_ipv6_sorted() {
    assert_eq!(
        render("2001:db8::/32 10.0.0.0/8"),
        vec!["10.0.0.0/8 2001:db8::/32"]
    );
}

#[test]
fn output_test_mixed_ipv6_first_flag() {
    let sort_opts = SortOptions {
        ipv6_first: true,
        reverse: false,
    };
    assert_eq!(
        render_with_sort("10.0.0.0/8 2001:db8::/32", &sort_opts),
        vec!["2001:db8::/32 10.0.0.0/8"]
    );
}

#[test]
fn test_single_ip_returns_one_element_vec() {
    assert_eq!(render("10.0.0.0/8").len(), 1);
}

#[test]
fn test_no_ip_default_returns_one_element_vec() {
    assert_eq!(render("# comment").len(), 1);
}

#[test]
fn test_no_ip_flat_returns_empty_vec() {
    let opts = OutputOptions {
        ips_only: IpsOnlyMode::Flat,
        ..Default::default()
    };
    assert_eq!(render_with("# comment", &opts).len(), 0);
}

#[test]
fn test_two_ips_flat_returns_two_element_vec() {
    let opts = OutputOptions {
        ips_only: IpsOnlyMode::Flat,
        ..Default::default()
    };
    assert_eq!(render_with("10.0.0.0/8 192.168.0.0/16", &opts).len(), 2);
}
