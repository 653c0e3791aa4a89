use twin_prime_engine::report::{format_number, mode_name, parse_mode};
use twin_prime_engine::finder::FinderMode;
use twin_prime_engine::text::{
    arg_value, arg_values, arg_values_every, batch_stem, decimal_string, escape_json, formula_minus, formula_plus,
    has_flag, parse_usize, ranking_label, sanitize_filename, starts_with_dashes, text_eq,
};

fn args(list: &[&str]) -> Vec<String> {
    list.iter().map(|s| s.to_string()).collect()
}

#[test]
fn decimal_text() {
    assert_eq!(decimal_string(0), "0");
    assert_eq!(decimal_string(7), "7");
    assert_eq!(decimal_string(1288907), "1288907");
    assert_eq!(decimal_string(u64::MAX), u64::MAX.to_string());
}

#[test]
fn formulas() {
    assert_eq!(formula_minus(3, 10), "3*2^10-1");
    assert_eq!(formula_plus(3, 10), "3*2^10+1");
    assert_eq!(formula_minus(24579, 1288907), "24579*2^1288907-1");
    assert_eq!(formula_plus(0, 0), "0*2^0+1");
}

#[test]
fn batch_stems() {
    assert_eq!(batch_stem(1288907, 5), "n1288907_batch000000000005");
    assert_eq!(batch_stem(1000, 0), "n1000_batch000000000000");
    assert_eq!(batch_stem(7, 1234567890123), "n7_batch1234567890123");
}

#[test]
fn ranking_labels() {
    assert_eq!(ranking_label(None, 211, Some(503)), "sieve_score(score_z=503)");
    assert_eq!(ranking_label(Some(1000), 211, Some(503)), "sieve_score(score_z=503)");
    assert_eq!(ranking_label(Some(1000), 211, None), "soft_rerank(soft_to=1000)");
    assert_eq!(ranking_label(Some(100), 211, None), "natural_order");
    assert_eq!(ranking_label(None, 211, None), "natural_order");
}

#[test]
fn number_grouping() {
    assert_eq!(format_number(0), "0");
    assert_eq!(format_number(999), "999");
    assert_eq!(format_number(1000), "1,000");
    assert_eq!(format_number(1234567), "1,234,567");
    assert_eq!(format_number(100_000), "100,000");
    assert_eq!(format_number(1_000_005), "1,000,005");
}

#[test]
fn mode_names() {
    assert_eq!(mode_name(Some(FinderMode::Fast)), "fast");
    assert_eq!(mode_name(Some(FinderMode::HighPrecision)), "high_precision");
    assert_eq!(mode_name(Some(FinderMode::ExactRange)), "exact_range");
    assert_eq!(mode_name(None), "custom");
    assert_eq!(parse_mode("exact_range"), Some(FinderMode::ExactRange));
    assert_eq!(parse_mode("fast"), Some(FinderMode::Fast));
    assert_eq!(parse_mode("slow"), None);
}

#[test]
fn parsing_usize() {
    assert_eq!(parse_usize("0"), Some(0));
    assert_eq!(parse_usize("42"), Some(42));
    assert_eq!(parse_usize("+42"), Some(42));
    assert_eq!(parse_usize("007"), Some(7));
    assert_eq!(parse_usize(""), None);
    assert_eq!(parse_usize("+"), None);
    assert_eq!(parse_usize("-1"), None);
    assert_eq!(parse_usize("12a"), None);
    assert_eq!(parse_usize(" 1"), None);
    assert_eq!(parse_usize(&usize::MAX.to_string()), Some(usize::MAX));
    assert_eq!(parse_usize("18446744073709551616"), "18446744073709551616".parse::<usize>().ok());
    for s in ["1", "+0", "99999999999999999999999", "1_000", "++1", "٣"] {
        assert_eq!(parse_usize(s), s.parse::<usize>().ok(), "{}", s);
    }
}

#[test]
fn json_escaping() {
    assert_eq!(escape_json("plain"), "plain");
    assert_eq!(escape_json("a\"b"), "a\\\"b");
    assert_eq!(escape_json("a\\b"), "a\\\\b");
    assert_eq!(escape_json(""), "");
    assert_eq!(escape_json("é\"é"), "é\\\"é");
}

#[test]
fn file_name_sanitizing() {
    assert_eq!(sanitize_filename("job-01_a.b"), "job-01_a.b");
    assert_eq!(sanitize_filename("a/b c:d"), "a_b_c_d");
    assert_eq!(sanitize_filename("ü"), "_");
    assert_eq!(sanitize_filename(""), "");
}

#[test]
fn text_comparison() {
    assert!(text_eq("abc", "abc"));
    assert!(!text_eq("abc", "abd"));
    assert!(!text_eq("ab", "abc"));
    assert!(starts_with_dashes("--limit"));
    assert!(!starts_with_dashes("-l"));
    assert!(!starts_with_dashes("x--"));
}

#[test]
fn flag_values() {
    let a = args(&["--limit", "100", "--mode", "fast", "--score", "--limit", "200"]);
    assert_eq!(arg_value(&a, "--limit"), Some("100".to_string()));
    assert_eq!(arg_value(&a, "--mode"), Some("fast".to_string()));
    assert_eq!(arg_value(&a, "--score"), Some("--limit".to_string()));
    assert_eq!(arg_value(&a, "--top-k"), None);
    assert_eq!(arg_value(&args(&["--x"]), "--x"), None);
    assert!(has_flag(&a, "--score"));
    assert!(!has_flag(&a, "--benchmark"));
}

#[test]
fn flag_lists() {
    let a = args(&["--benchmark-limits", "1000", "2000", "--mode", "fast", "--benchmark-limits", "3000"]);
    assert_eq!(arg_values(&a, "--benchmark-limits"), args(&["1000", "2000"]));
    assert_eq!(arg_values(&a, "--missing"), Vec::<String>::new());
    assert_eq!(arg_values_every(&a, "--benchmark-limits"), args(&["1000", "2000", "3000"]));
    let b = args(&["--work-unit", "a.json", "b.json", "--result-dir", "out", "--work-unit", "c.json"]);
    assert_eq!(arg_values_every(&b, "--work-unit"), args(&["a.json", "b.json", "c.json"]));
    assert_eq!(arg_values_every(&b, "--result-dir"), args(&["out"]));
}
