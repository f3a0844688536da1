//! End-to-end runs of the command's behaviour through the library: the
//! options a command line would set, the lines it would read, and what it
//! would print and exit with.

use ipsort::output::{IpsOnlyMode, OutputOptions};
use ipsort::pipeline::{run, ArrangeError, CheckOutcome, RunOptions, RunResult};
use ipsort::sort::SortOptions;

struct Command {
    args: Vec<String>,
    stdin: String,
}

struct Outcome {
    code: i32,
    stdout: String,
    stderr: String,
}

enum Expected<'a> {
    Exact(&'a str),
    Contains(&'a str),
}

impl<'a> From<&'a str> for Expected<'a> {
    fn from(s: &'a str) -> Self {
        Expected::Exact(s)
    }
}

fn contains(s: &str) -> Expected<'_> {
    Expected::Contains(s)
}

fn ipsort() -> Command {
    Command { args: Vec::new(), stdin: String::new() }
}

fn fail(code: i32, message: String) -> Outcome {
    Outcome { code, stdout: String::new(), stderr: message + "\n" }
}

impl Command {
    fn args<'b>(mut self, args: impl IntoIterator<Item = &'b str>) -> Self {
        self.args.extend(args.into_iter().map(|a| a.to_string()));
        self
    }

    fn arg(mut self, arg: &str) -> Self {
        self.args.push(arg.to_string());
        self
    }

    fn write_stdin(mut self, s: &str) -> Self {
        self.stdin = s.to_string();
        self
    }

    fn outcome(self) -> Outcome {
        let mut sort = SortOptions::default();
        let mut output = OutputOptions::default();
        let (mut unique, mut inline, mut aggregate, mut check) = (false, false, false, false);
        let (mut flat, mut structured) = (false, false);
        let mut addresses: Vec<String> = Vec::new();
        for a in &self.args {
            match a.as_str() {
                "-r" | "--reverse" => sort.reverse = true,
                "--ipv6-first" => sort.ipv6_first = true,
                "-u" | "--unique" => unique = true,
                "-i" | "--inline" => inline = true,
                "-n" | "--normalize" => output.normalize = true,
                "--ips-only" => flat = true,
                "--ips-only-with-structure" => structured = true,
                "-a" | "--aggregate" => aggregate = true,
                "-c" | "--check" => check = true,
                s if s.starts_with('-') && s != "-" => {
                    return fail(2, format!("error: unexpected argument '{s}' found"));
                }
                s => addresses.push(s.to_string()),
            }
        }
        if flat && structured {
            return fail(
                2,
                "error: the argument '--ips-only' cannot be used with '--ips-only-with-structure'"
                    .to_string(),
            );
        }
        output.ips_only = if flat {
            IpsOnlyMode::Flat
        } else if structured {
            IpsOnlyMode::WithStructure
        } else {
            IpsOnlyMode::Off
        };
        let has_args = !(addresses.is_empty() || addresses.len() == 1 && addresses[0] == "-");
        if has_args && !self.stdin.is_empty() {
            return fail(2, "ipsort: addresses given both on stdin and as arguments; use one".to_string());
        }
        let lines: Vec<String> = if has_args {
            addresses
        } else {
            self.stdin.lines().map(|l| l.to_string()).collect()
        };
        if !has_args && lines.is_empty() {
            return fail(2, "ipsort: no input provided".to_string());
        }
        let opts = RunOptions { sort, output, unique, inline, aggregate };
        match run(&lines, &opts, check) {
            RunResult::NoIpFound => fail(2, "ipsort: no IP addresses found in input".to_string()),
            RunResult::Failed(ArrangeError::Aggregate(e)) => fail(
                2,
                format!(
                    "ipsort: --aggregate: multi-IP line {:?} would be involved in aggregation to {}",
                    e.line,
                    e.aggregate.to_string()
                ),
            ),
            RunResult::Failed(ArrangeError::Deduplicate(e)) => fail(
                2,
                format!(
                    "ipsort: --unique: duplicate IP {} found on multi-IP line {:?}",
                    e.duplicate_ip.to_string(),
                    e.line
                ),
            ),
            RunResult::Checked(CheckOutcome::Unchanged) => {
                Outcome { code: 0, stdout: String::new(), stderr: String::new() }
            }
            RunResult::Checked(CheckOutcome::OutOfOrder { line, text }) => {
                fail(1, format!("ipsort: check failed: line {line} is out of order: {text:?}"))
            }
            RunResult::Checked(CheckOutcome::LengthDiffers { input, output }) => fail(
                1,
                format!("ipsort: check failed: input has {input} lines but sorted output has {output}"),
            ),
            RunResult::Emitted(lines) => {
                let mut stdout = String::new();
                let mut stderr = String::new();
                for line in lines {
                    for w in line.warnings {
                        stderr.push_str(&w);
                        stderr.push('\n');
                    }
                    for r in line.rendered {
                        stdout.push_str(&r);
                        stdout.push('\n');
                    }
                }
                Outcome { code: 0, stdout, stderr }
            }
        }
    }
}

fn check_expected(stream: &str, what: &str, expected: Expected<'_>) {
    match expected {
        Expected::Exact(s) => assert_eq!(what, s, "{stream} mismatch"),
        Expected::Contains(s) => assert!(what.contains(s), "{stream} {what:?} lacks {s:?}"),
    }
}

impl Outcome {
    fn success(self) -> Self {
        assert_eq!(self.code, 0, "expected success; stderr: {}", self.stderr);
        self
    }

    fn failure(self) -> Self {
        assert_ne!(self.code, 0, "expected failure; stdout: {}", self.stdout);
        self
    }

    fn stdout<'a>(self, expected: impl Into<Expected<'a>>) -> Self {
        check_expected("stdout", &self.stdout, expected.into());
        self
    }

    fn stderr<'a>(self, expected: impl Into<Expected<'a>>) -> Self {
        check_expected("stderr", &self.stderr, expected.into());
        self
    }
}

#[test]
fn test_stdin_basic_sort() {
    ipsort()
        .write_stdin("192.168.1.0/24\n10.0.0.0/8\n172.16.0.0/12\n")
        .outcome()
        .success()
        .stdout("10.0.0.0/8\n172.16.0.0/12\n192.168.1.0/24\n");
}

#[test]
fn test_stdin_already_sorted() {
    ipsort()
        .write_stdin("10.0.0.0/8\n172.16.0.0/12\n192.168.1.0/24\n")
        .outcome()
        .success()
        .stdout("10.0.0.0/8\n172.16.0.0/12\n192.168.1.0/24\n");
}

#[test]
fn test_stdin_bare_ips() {
    ipsort()
        .write_stdin("192.168.1.1\n10.0.0.1\n")
        .outcome()
        .success()
        .stdout("10.0.0.1\n192.168.1.1\n");
}

#[test]
fn test_stdin_single_ip() {
    ipsort()
        .write_stdin("10.0.0.0/8\n")
        .outcome()
        .success()
        .stdout("10.0.0.0/8\n");
}

#[test]
fn test_positional_args_multiple() {
    ipsort()
        .args(["192.168.1.0/24", "10.0.0.0/8", "172.16.0.0/12"])
        .outcome()
        .success()
        .stdout("10.0.0.0/8\n172.16.0.0/12\n192.168.1.0/24\n");
}

#[test]
fn test_positional_single_arg_space_separated() {
    ipsort()
        .arg("192.168.1.0/24 10.0.0.0/8 172.16.0.0/12")
        .outcome()
        .success()
        .stdout("10.0.0.0/8 172.16.0.0/12 192.168.1.0/24\n");
}

#[test]
fn test_positional_single_arg_comma_separated() {
    ipsort()
        .arg("192.168.1.0/24,10.0.0.0/8,172.16.0.0/12")
        .outcome()
        .success()
        .stdout("10.0.0.0/8,172.16.0.0/12,192.168.1.0/24\n");
}

#[test]
fn integration_test_same_network_shorter_prefix_first() {
    ipsort()
        .write_stdin("10.0.0.0/24\n10.0.0.0/8\n10.0.0.0/16\n")
        .outcome()
        .success()
        .stdout("10.0.0.0/8\n10.0.0.0/16\n10.0.0.0/24\n");
}

#[test]
fn test_yaml_list_decoration_preserved() {
    ipsort()
        .write_stdin("- 192.168.1.0/24\n- 10.0.0.0/8\n- 172.16.0.0/12\n")
        .outcome()
        .success()
        .stdout("- 10.0.0.0/8\n- 172.16.0.0/12\n- 192.168.1.0/24\n");
}

#[test]
fn test_json_quoted_cidrs_preserved() {
    ipsort()
        .write_stdin("\"192.168.0.0/16\", \"10.0.0.0/8\"\n")
        .outcome()
        .success()
        .stdout("\"10.0.0.0/8\", \"192.168.0.0/16\"\n");
}

#[test]
fn integration_test_yaml_key_value_preserved() {
    ipsort()
        .write_stdin("network: 192.168.0.0/16\nnetwork: 10.0.0.0/8\n")
        .outcome()
        .success()
        .stdout("network: 10.0.0.0/8\nnetwork: 192.168.0.0/16\n");
}

#[test]
fn test_multi_ip_line_intra_sorted() {
    ipsort()
        .write_stdin("192.168.0.0/16 10.0.0.0/8\n")
        .outcome()
        .success()
        .stdout("10.0.0.0/8 192.168.0.0/16\n");
}

#[test]
fn test_blank_line_separator() {
    ipsort()
        .write_stdin(
            "192.168.1.0/24\n10.0.0.0/8\n\n172.16.2.0/24\n172.16.1.0/24\n",
        )
        .outcome()
        .success()
        .stdout("10.0.0.0/8\n192.168.1.0/24\n\n172.16.1.0/24\n172.16.2.0/24\n");
}

#[test]
fn test_comment_separator_preserved() {
    ipsort()
        .write_stdin("# group one\n192.168.1.0/24\n10.0.0.0/8\n# group two\n172.16.2.0/24\n172.16.1.0/24\n")
        .outcome()
        .success()
        .stdout("# group one\n10.0.0.0/8\n192.168.1.0/24\n# group two\n172.16.1.0/24\n172.16.2.0/24\n");
}

#[test]
fn test_leading_comment_preserved() {
    ipsort()
        .write_stdin("# header\n192.168.1.0/24\n10.0.0.0/8\n")
        .outcome()
        .success()
        .stdout("# header\n10.0.0.0/8\n192.168.1.0/24\n");
}

#[test]
fn test_trailing_comment_preserved() {
    ipsort()
        .write_stdin("192.168.1.0/24\n10.0.0.0/8\n# footer\n")
        .outcome()
        .success()
        .stdout("10.0.0.0/8\n192.168.1.0/24\n# footer\n");
}

#[test]
fn test_ipv4_before_ipv6_default() {
    ipsort()
        .write_stdin("2001:db8::/32\n10.0.0.0/8\n")
        .outcome()
        .success()
        .stdout("10.0.0.0/8\n2001:db8::/32\n");
}

#[test]
fn test_ipv6_first_flag() {
    ipsort()
        .args(["--ipv6-first"])
        .write_stdin("10.0.0.0/8\n2001:db8::/32\n")
        .outcome()
        .success()
        .stdout("2001:db8::/32\n10.0.0.0/8\n");
}

#[test]
fn test_reverse() {
    ipsort()
        .args(["--reverse", "10.0.0.0/8", "172.16.0.0/12", "192.168.1.0/24"])
        .outcome()
        .success()
        .stdout("192.168.1.0/24\n172.16.0.0/12\n10.0.0.0/8\n");
}

#[test]
fn test_reverse_short_flag() {
    ipsort()
        .args(["-r", "10.0.0.0/8", "172.16.0.0/12"])
        .outcome()
        .success()
        .stdout("172.16.0.0/12\n10.0.0.0/8\n");
}

#[test]
fn test_normalize_host_bits() {
    ipsort()
        .args(["--normalize"])
        .write_stdin("10.0.0.5/24\n")
        .outcome()
        .success()
        .stdout("10.0.0.0/24\n");
}

#[test]
fn test_normalize_bare_ip() {
    ipsort()
        .args(["--normalize"])
        .write_stdin("192.168.1.1\n")
        .outcome()
        .success()
        .stdout("192.168.1.1/32\n");
}

#[test]
fn test_normalize_bare_ipv6() {
    ipsort()
        .args(["--normalize"])
        .write_stdin("2001:db8::1\n")
        .outcome()
        .success()
        .stdout("2001:db8::1/128\n");
}

#[test]
fn test_normalize_preserves_decoration() {
    ipsort()
        .args(["--normalize"])
        .write_stdin("- 10.0.0.5/24\n")
        .outcome()
        .success()
        .stdout("- 10.0.0.0/24\n");
}

#[test]
fn test_unique_drops_duplicate_lines() {
    ipsort()
        .args(["--unique"])
        .write_stdin("10.0.0.0/8\n192.168.0.0/16\n10.0.0.0/8\n")
        .outcome()
        .success()
        .stdout("10.0.0.0/8\n192.168.0.0/16\n");
}

#[test]
fn test_unique_short_flag() {
    ipsort()
        .args(["-u"])
        .write_stdin("10.0.0.0/8\n10.0.0.0/8\n")
        .outcome()
        .success()
        .stdout("10.0.0.0/8\n");
}

#[test]
fn test_unique_normalizes_for_comparison() {
    // 10.0.0.5/24 and 10.0.0.0/24 normalize to the same network
    ipsort()
        .args(["--unique"])
        .write_stdin("10.0.0.0/24\n10.0.0.5/24\n")
        .outcome()
        .success()
        .stdout("10.0.0.0/24\n");
}

#[test]
fn test_unique_different_prefix_lengths_not_deduped() {
    ipsort()
        .args(["--unique"])
        .write_stdin("10.0.0.0/8\n10.0.0.0/24\n")
        .outcome()
        .success()
        .stdout("10.0.0.0/8\n10.0.0.0/24\n");
}

#[test]
fn test_unique_multi_ip_line_errors() {
    ipsort()
        .args(["--unique"])
        .write_stdin("10.0.0.0/8\n192.168.0.0/16 10.0.0.0/8\n")
        .outcome()
        .failure()
        .stderr(contains("10.0.0.0/8"))
        .stderr(contains("--unique"));
}

#[test]
fn test_unique_with_ips_only_no_error_on_multi_ip() {
    ipsort()
        .args(["--unique", "--ips-only"])
        .write_stdin("10.0.0.0/8\n192.168.0.0/16 10.0.0.0/8\n")
        .outcome()
        .success()
        .stdout("10.0.0.0/8\n192.168.0.0/16\n");
}

#[test]
fn test_unique_intra_line_dedup() {
    ipsort()
        .args(["--unique"])
        .arg("10.10.10.10/32 10.10.10.10/32")
        .outcome()
        .success()
        .stdout(contains("10.10.10.10/32"));
}

#[test]
fn test_ips_only_strips_decoration() {
    ipsort()
        .args(["--ips-only"])
        .write_stdin("- 192.168.1.0/24\n- 10.0.0.0/8\n")
        .outcome()
        .success()
        .stdout("10.0.0.0/8\n192.168.1.0/24\n");
}

#[test]
fn test_ips_only_discards_non_ip_lines() {
    ipsort()
        .args(["--ips-only"])
        .write_stdin("# comment\n10.0.0.0/8\n\n192.168.0.0/16\n")
        .outcome()
        .success()
        .stdout("10.0.0.0/8\n192.168.0.0/16\n");
}

#[test]
fn test_ips_only_multi_ip_line_one_per_output_line() {
    ipsort()
        .args(["--ips-only"])
        .write_stdin("192.168.0.0/16 10.0.0.0/8\n")
        .outcome()
        .success()
        .stdout("10.0.0.0/8\n192.168.0.0/16\n");
}

#[test]
fn integration_test_ips_only_with_structure_strips_decoration() {
    ipsort()
        .args(["--ips-only-with-structure"])
        .write_stdin("- 192.168.1.0/24\n- 10.0.0.0/8\n")
        .outcome()
        .success()
        .stdout("10.0.0.0/8\n192.168.1.0/24\n");
}

#[test]
fn test_ips_only_with_structure_preserves_separators() {
    ipsort()
        .args(["--ips-only-with-structure"])
        .write_stdin("# group one\n192.168.1.0/24\n10.0.0.0/8\n\n# group two\n172.16.2.0/24\n172.16.1.0/24\n")
        .outcome()
        .success()
        .stdout("# group one\n10.0.0.0/8\n192.168.1.0/24\n\n# group two\n172.16.1.0/24\n172.16.2.0/24\n");
}

#[test]
fn test_ips_only_and_ips_only_with_structure_mutually_exclusive() {
    ipsort()
        .args(["--ips-only", "--ips-only-with-structure", "10.0.0.0/8"])
        .outcome()
        .failure()
        .stderr(contains("cannot be used with"));
}

#[test]
fn integration_test_inline_crosses_block_separator() {
    ipsort()
        .args(["--inline"])
        .write_stdin("192.168.1.0/24\n\n10.0.0.0/8\n")
        .outcome()
        .success()
        .stdout("10.0.0.0/8\n\n192.168.1.0/24\n");
}

#[test]
fn test_inline_multi_line_yaml_value() {
    ipsort()
        .args(["--inline"])
        .write_stdin("allowed_ips: 192.168.1.0/24 10.0.0.0/8\n  172.16.2.0/24 172.16.1.0/24\n")
        .outcome()
        .success()
        .stdout("allowed_ips: 10.0.0.0/8 172.16.1.0/24\n  172.16.2.0/24 192.168.1.0/24\n");
}

#[test]
fn test_inline_preserves_decoration() {
    ipsort()
        .args(["--inline"])
        .write_stdin("- 192.168.1.0/24\n- 10.0.0.0/8\n")
        .outcome()
        .success()
        .stdout("- 10.0.0.0/8\n- 192.168.1.0/24\n");
}

#[test]
fn test_inline_with_unique() {
    ipsort()
        .args(["--inline", "--unique"])
        .write_stdin("10.0.0.0/8\n192.168.0.0/16\n10.0.0.0/8\n")
        .outcome()
        .success()
        .stdout("10.0.0.0/8\n192.168.0.0/16\n\n");
}

#[test]
fn test_host_bits_warning_to_stderr() {
    ipsort()
        .write_stdin("10.0.0.5/24\n")
        .outcome()
        .success()
        .stdout("10.0.0.5/24\n")
        .stderr(contains("host bits set"));
}

#[test]
fn test_host_bits_original_preserved_in_output() {
    ipsort()
        .write_stdin("10.0.0.5/24\n")
        .outcome()
        .success()
        .stdout("10.0.0.5/24\n");
}

#[test]
fn test_no_ips_found_exits_nonzero() {
    ipsort()
        .write_stdin("# just a comment\n---\n")
        .outcome()
        .failure()
        .stderr(contains("no IP addresses found"));
}

#[test]
fn test_empty_pipe_exits_nonzero() {
    ipsort().write_stdin("").outcome().failure();
}

#[test]
fn test_success_exits_zero() {
    ipsort().write_stdin("10.0.0.0/8\n").outcome().success();
}

#[test]
fn test_invalid_flag_exits_nonzero() {
    ipsort().args(["--not-a-flag"]).outcome().failure();
}

#[test]
fn test_aggregate_two_halves() {
    ipsort()
        .args(["--aggregate"])
        .write_stdin("10.0.0.0/25\n10.0.0.128/25\n")
        .outcome()
        .success()
        .stdout("10.0.0.0/24\n");
}

#[test]
fn test_aggregate_short_flag() {
    ipsort()
        .args(["-a"])
        .write_stdin("10.0.0.0/25\n10.0.0.128/25\n")
        .outcome()
        .success()
        .stdout("10.0.0.0/24\n");
}

#[test]
fn test_aggregate_four_subnets() {
    ipsort()
        .args(["--aggregate"])
        .write_stdin("10.0.0.0/24\n10.0.1.0/24\n10.0.2.0/24\n10.0.3.0/24\n")
        .outcome()
        .success()
        .stdout("10.0.0.0/22\n");
}

#[test]
fn test_aggregate_partial() {
    ipsort()
        .args(["--aggregate"])
        .write_stdin("10.0.0.0/25\n10.0.0.128/25\n192.168.0.0/24\n")
        .outcome()
        .success()
        .stdout("10.0.0.0/24\n192.168.0.0/24\n");
}

#[test]
fn test_aggregate_no_aggregation_possible() {
    ipsort()
        .args(["--aggregate"])
        .write_stdin("10.0.0.0/24\n192.168.0.0/24\n")
        .outcome()
        .success()
        .stdout("10.0.0.0/24\n192.168.0.0/24\n");
}

#[test]
fn test_aggregate_preserves_decoration() {
    ipsort()
        .args(["--aggregate"])
        .write_stdin("- 10.0.0.0/25\n- 10.0.0.128/25\n")
        .outcome()
        .success()
        .stdout("- 10.0.0.0/24\n");
}

#[test]
fn test_aggregate_first_line_wins_decoration() {
    ipsort()
        .args(["--aggregate"])
        .write_stdin("first: 10.0.0.0/25\nsecond: 10.0.0.128/25\n")
        .outcome()
        .success()
        .stdout("first: 10.0.0.0/24\n");
}

#[test]
fn test_aggregate_per_block() {
    ipsort()
        .args(["--aggregate"])
        .write_stdin(
            "10.0.0.0/25\n10.0.0.128/25\n\n192.168.0.0/25\n192.168.0.128/25\n",
        )
        .outcome()
        .success()
        .stdout("10.0.0.0/24\n\n192.168.0.0/24\n");
}

#[test]
fn test_aggregate_separator_preserved() {
    ipsort()
        .args(["--aggregate"])
        .write_stdin("10.0.0.0/25\n10.0.0.128/25\n# comment\n192.168.0.0/24\n")
        .outcome()
        .success()
        .stdout("10.0.0.0/24\n# comment\n192.168.0.0/24\n");
}

#[test]
fn test_aggregate_multi_ip_line_error() {
    ipsort()
        .args(["--aggregate"])
        .write_stdin("10.0.0.0/25 192.168.0.0/24\n10.0.0.128/25\n")
        .outcome()
        .failure()
        .stderr(contains("--aggregate"))
        .stderr(contains("10.0.0.0/24"));
}

#[test]
fn test_aggregate_ipv6() {
    ipsort()
        .args(["--aggregate"])
        .write_stdin("2001:db8::/33\n2001:db8:8000::/33\n")
        .outcome()
        .success()
        .stdout("2001:db8::/32\n");
}

#[test]
fn test_aggregate_with_reverse() {
    ipsort()
        .args(["--aggregate", "--reverse"])
        .write_stdin(
            "10.0.0.0/25\n10.0.0.128/25\n192.168.0.0/25\n192.168.0.128/25\n",
        )
        .outcome()
        .success()
        .stdout("192.168.0.0/24\n10.0.0.0/24\n");
}

#[test]
fn test_check_already_sorted_exits_zero() {
    ipsort()
        .args(["--check"])
        .write_stdin("10.0.0.0/8\n172.16.0.0/12\n192.168.0.0/16\n")
        .outcome()
        .success()
        .stdout("");
}

#[test]
fn test_check_unsorted_exits_nonzero() {
    ipsort()
        .args(["--check"])
        .write_stdin("192.168.0.0/16\n10.0.0.0/8\n")
        .outcome()
        .failure();
}

#[test]
fn test_check_reports_first_out_of_order_line() {
    ipsort()
        .args(["--check"])
        .write_stdin("192.168.0.0/16\n10.0.0.0/8\n")
        .outcome()
        .failure()
        .stderr(contains("192.168.0.0/16"))
        .stderr(contains("line 1"));
}

#[test]
fn test_check_no_stdout_on_failure() {
    ipsort()
        .args(["--check"])
        .write_stdin("192.168.0.0/16\n10.0.0.0/8\n")
        .outcome()
        .failure()
        .stdout("");
}

#[test]
fn test_check_no_stdout_on_success() {
    ipsort()
        .args(["--check"])
        .write_stdin("10.0.0.0/8\n192.168.0.0/16\n")
        .outcome()
        .success()
        .stdout("");
}

#[test]
fn test_check_short_flag() {
    ipsort()
        .args(["-c"])
        .write_stdin("10.0.0.0/8\n192.168.0.0/16\n")
        .outcome()
        .success();
}

#[test]
fn test_check_with_unique_detects_duplicates() {
    ipsort()
        .args(["--check", "--unique"])
        .write_stdin("10.0.0.0/8\n10.0.0.0/8\n192.168.0.0/16\n")
        .outcome()
        .failure();
}

#[test]
fn test_check_with_unique_passes_when_no_duplicates() {
    ipsort()
        .args(["--check", "--unique"])
        .write_stdin("10.0.0.0/8\n192.168.0.0/16\n")
        .outcome()
        .success();
}

#[test]
fn test_check_with_aggregate_detects_unaggregated() {
    ipsort()
        .args(["--check", "--aggregate"])
        .write_stdin("10.0.0.0/25\n10.0.0.128/25\n")
        .outcome()
        .failure();
}

#[test]
fn test_check_with_aggregate_passes_when_aggregated() {
    ipsort()
        .args(["--check", "--aggregate"])
        .write_stdin("10.0.0.0/24\n192.168.0.0/24\n")
        .outcome()
        .success();
}

#[test]
fn test_check_with_ips_only_sorted() {
    ipsort()
        .args(["--check", "--ips-only"])
        .write_stdin("- 10.0.0.0/8\n- 192.168.0.0/16\n")
        .outcome()
        .success();
}

#[test]
fn test_check_with_ips_only_unsorted() {
    ipsort()
        .args(["--check", "--ips-only"])
        .write_stdin("- 192.168.0.0/16\n- 10.0.0.0/8\n")
        .outcome()
        .failure();
}

#[test]
fn test_check_with_block_separators_sorted() {
    ipsort()
        .args(["--check"])
        .write_stdin("# group\n10.0.0.0/8\n192.168.0.0/16\n\n172.16.1.0/24\n172.16.2.0/24\n")
        .outcome()
        .success();
}

#[test]
fn test_check_with_block_separators_unsorted() {
    ipsort()
        .args(["--check"])
        .write_stdin("# group\n192.168.0.0/16\n10.0.0.0/8\n")
        .outcome()
        .failure();
}

#[test]
fn test_ips_only_sorts_whole_input_as_one_pool() {
    ipsort()
        .args(["--ips-only"])
        .write_stdin("# group one\n- 192.168.1.0/24\n- 10.0.0.0/8\n\n# group two\n- 172.16.0.0/12\n")
        .outcome()
        .success()
        .stdout("10.0.0.0/8\n172.16.0.0/12\n192.168.1.0/24\n");
}

#[test]
fn test_yaml_document_sorted_per_block() {
    ipsort()
        .write_stdin(
            "# firewall rules\nallowed_sources:\n  - 192.168.1.0/24\n  - 10.0.0.0/8\n  - 172.16.5.0/24\n\ndenied_sources:\n  - 10.99.0.0/16\n  - 192.168.99.0/24\n",
        )
        .outcome()
        .success()
        .stdout(
            "# firewall rules\nallowed_sources:\n  - 10.0.0.0/8\n  - 172.16.5.0/24\n  - 192.168.1.0/24\n\ndenied_sources:\n  - 10.99.0.0/16\n  - 192.168.99.0/24\n",
        );
}

#[test]
fn test_aggregate_decorated_list() {
    ipsort()
        .args(["--aggregate"])
        .write_stdin("- 10.0.0.0/25\n- 10.0.0.128/25\n- 192.168.0.0/24\n")
        .outcome()
        .success()
        .stdout("- 10.0.0.0/24\n- 192.168.0.0/24\n");
}

#[test]
fn test_exit_codes_follow_documentation() {
    assert_eq!(ipsort().write_stdin("# none\n").outcome().code, 2);
    assert_eq!(ipsort().args(["-c"]).write_stdin("::2\n::1\n").outcome().code, 1);
    assert_eq!(ipsort().args(["-c"]).write_stdin("::1\n::2\n").outcome().code, 0);
}

#[test]
fn test_stdin_and_arguments_mutually_exclusive() {
    ipsort()
        .args(["10.0.0.0/8"])
        .write_stdin("192.168.0.0/16\n")
        .outcome()
        .failure()
        .stderr(contains("both on stdin and as arguments"));
}

#[test]
fn test_malformed_cidr_warned_and_kept() {
    ipsort()
        .write_stdin("10.0.0.1/33 10.0.0.0/8\n192.168.0.0/16\n")
        .outcome()
        .success()
        .stdout("10.0.0.1/33 10.0.0.0/8\n192.168.0.0/16\n")
        .stderr("warning: invalid CIDR \"10.0.0.1/33\", treating as text\n");
}

#[test]
fn test_malformed_cidr_on_line_without_ip_warned() {
    ipsort()
        .write_stdin("999.0.0.1/24\n10.0.0.0/8\n")
        .outcome()
        .success()
        .stdout("999.0.0.1/24\n10.0.0.0/8\n")
        .stderr(contains("invalid CIDR \"999.0.0.1/24\""));
}

#[test]
fn test_malformed_cidr_warned_in_flat_mode() {
    ipsort()
        .args(["--ips-only"])
        .write_stdin("# x 10.0.0.0/40\n10.0.0.0/8\n")
        .outcome()
        .success()
        .stdout("10.0.0.0/8\n")
        .stderr(contains("invalid CIDR \"10.0.0.0/40\""));
}
