use license_report::group::group_dependencies;
use license_report::report::{
    group_by_license_type, missing_lockfile_message, one_license_per_line, render_report,
};
use license_report::text::{join_with, str_lt};
use license_report::{Config, Dependency};

fn dep(
    name: &str,
    version: &str,
    license: Option<&str>,
    source: &str,
    authors: Option<Vec<&str>>,
) -> Dependency {
    Dependency {
        name: name.to_owned(),
        version: version.to_owned(),
        source: source.to_owned(),
        license: license.map(|l| l.to_owned()),
        authors: authors.map(|a| a.into_iter().map(|s| s.to_owned()).collect()),
    }
}

fn plain(show_authors: bool) -> Config {
    Config { show_authors, color: false }
}

fn colored(show_authors: bool) -> Config {
    Config { show_authors, color: true }
}

fn strip_markers(s: &str) -> String {
    let mut out = String::new();
    let mut in_marker = false;
    for c in s.chars() {
        if in_marker {
            if c == 'm' {
                in_marker = false;
            }
        } else if c == '\u{1b}' {
            in_marker = true;
        } else {
            out.push(c);
        }
    }
    out
}

#[test]
fn grouped_example_two_groups() {
    let deps = vec![
        dep("foo", "1.0", Some("MIT"), "registry", Some(vec!["A"])),
        dep("bar", "2.0", None, "registry", Some(vec![])),
    ];
    let out = group_by_license_type(deps, &plain(true));
    assert_eq!(out, "MIT (1)\nfoo\nby A\nN/A (1)\nbar\nby \n");
}

#[test]
fn grouped_without_authors() {
    let deps = vec![
        dep("foo", "1.0", Some("MIT"), "registry", None),
        dep("baz", "0.3", Some("MIT"), "registry", None),
        dep("bar", "2.0", Some("Apache-2.0"), "registry", None),
    ];
    let out = group_by_license_type(deps, &plain(false));
    assert_eq!(out, "Apache-2.0 (1): bar\nMIT (2): foo, baz\n");
}

#[test]
fn grouped_partitions_input() {
    let deps = vec![
        dep("a", "1", Some("MIT"), "r", None),
        dep("b", "1", Some("Zlib"), "r", None),
        dep("c", "1", Some("MIT"), "r", None),
        dep("d", "1", None, "r", None),
        dep("e", "1", Some("Zlib"), "r", None),
    ];
    let groups = group_dependencies(deps);
    let total: usize = groups.iter().map(|g| g.members.len()).sum();
    assert_eq!(total, 5);
    let mut seen = Vec::new();
    for g in &groups {
        for m in &g.members {
            assert!(!seen.contains(&m.name));
            seen.push(m.name.clone());
        }
    }
    assert_eq!(seen.len(), 5);
}

#[test]
fn missing_license_defaults_to_na_in_both_modes() {
    let deps = vec![dep("bar", "2.0", None, "registry", None)];
    let grouped = group_by_license_type(deps, &plain(false));
    assert_eq!(grouped, "N/A (1): bar\n");
    let deps = vec![dep("bar", "2.0", None, "registry", None)];
    let flat = one_license_per_line(&deps, &plain(false));
    assert_eq!(flat, "bar: 2.0, \"N/A\", registry\n");
}

#[test]
fn shared_author_listed_once() {
    let deps = vec![
        dep("foo", "1.0", Some("MIT"), "r", Some(vec!["Ada <ada@x>", "Bob"])),
        dep("baz", "2.0", Some("MIT"), "r", Some(vec!["Ada <ada@x>"])),
    ];
    let out = group_by_license_type(deps, &plain(true));
    assert_eq!(out, "MIT (2)\nfoo, baz\nby Ada <ada@x>, Bob\n");
}

#[test]
fn color_toggle_preserves_content_grouped() {
    let mk = || {
        vec![
            dep("foo", "1.0", Some("MIT"), "r", Some(vec!["A", "B"])),
            dep("bar", "2.0", None, "r", Some(vec!["A"])),
        ]
    };
    let with_color = group_by_license_type(mk(), &colored(true));
    let without = group_by_license_type(mk(), &plain(true));
    assert_ne!(with_color, without);
    assert_eq!(strip_markers(&with_color), without);
}

#[test]
fn color_toggle_preserves_content_flat() {
    let deps = vec![
        dep("foo", "1.0", Some("MIT"), "r", Some(vec!["A"])),
        dep("bar", "2.0", None, "r", None),
    ];
    let with_color = one_license_per_line(&deps, &colored(true));
    let without = one_license_per_line(&deps, &plain(true));
    assert_ne!(with_color, without);
    assert_eq!(strip_markers(&with_color), without);
}

#[test]
fn colored_tokens_use_green_markers() {
    let deps = vec![dep("foo", "1.0", Some("MIT"), "r", Some(vec!["A"]))];
    let out = group_by_license_type(deps, &colored(true));
    assert!(out.starts_with("\u{1b}[1;32mMIT\u{1b}[0m (1)\n"));
    assert!(out.contains("\u{1b}[32mby\u{1b}[0m A"));
}

#[test]
fn flat_mode_keeps_input_order() {
    let deps = vec![
        dep("zeta", "1.0", Some("Zlib"), "r", None),
        dep("alpha", "2.0", Some("MIT"), "r", None),
        dep("mid", "3.0", Some("Apache-2.0"), "r", None),
    ];
    let out = one_license_per_line(&deps, &plain(false));
    assert_eq!(
        out,
        "zeta: 1.0, \"Zlib\", r\nalpha: 2.0, \"MIT\", r\nmid: 3.0, \"Apache-2.0\", r\n"
    );
}

#[test]
fn grouped_mode_sorts_keys_whatever_the_input_order() {
    let a = vec![
        dep("z", "1", Some("Zlib"), "r", None),
        dep("m", "1", Some("MIT"), "r", None),
        dep("n", "1", None, "r", None),
    ];
    let out_a = group_by_license_type(a, &plain(false));
    assert_eq!(out_a, "MIT (1): m\nN/A (1): n\nZlib (1): z\n");
    let b = vec![
        dep("n", "1", None, "r", None),
        dep("z", "1", Some("Zlib"), "r", None),
        dep("m", "1", Some("MIT"), "r", None),
    ];
    let out_b = group_by_license_type(b, &plain(false));
    assert_eq!(out_b, "MIT (1): m\nN/A (1): n\nZlib (1): z\n");
}

#[test]
fn flat_line_with_authors_quotes_the_list() {
    let deps = vec![dep("foo", "1.0", Some("MIT"), "registry", Some(vec!["A", "B"]))];
    let out = one_license_per_line(&deps, &plain(true));
    assert_eq!(out, "foo: 1.0, \"MIT\", registry, by \"A, B\"\n");
}

#[test]
fn counts_above_nine_render_in_decimal() {
    let mut deps = Vec::new();
    for i in 0..12 {
        deps.push(dep(&format!("crate{}", i), "1", Some("MIT"), "r", None));
    }
    let out = group_by_license_type(deps, &plain(false));
    assert!(out.starts_with("MIT (12): crate0, crate1,"));
}

#[test]
fn empty_input_renders_empty_reports() {
    let out = group_by_license_type(Vec::new(), &plain(true));
    assert_eq!(out, "");
    let deps: Vec<Dependency> = Vec::new();
    let out = one_license_per_line(&deps, &plain(true));
    assert_eq!(out, "");
}

#[test]
fn render_report_selects_the_mode() {
    let mk = || vec![dep("foo", "1.0", Some("MIT"), "r", None)];
    let flat = render_report(mk(), true, &plain(false));
    assert_eq!(flat, "foo: 1.0, \"MIT\", r\n");
    let grouped = render_report(mk(), false, &plain(false));
    assert_eq!(grouped, "MIT (1): foo\n");
}

#[test]
fn missing_lockfile_message_names_the_lockfile() {
    let msg = missing_lockfile_message("no such file");
    assert!(msg.contains("Cargo.lock file not found"));
    assert_eq!(
        msg,
        "Cargo.lock file not found. Try building the project first.\nno such file"
    );
}

#[test]
fn string_order_is_lexicographic() {
    assert!(str_lt("Apache-2.0", "MIT"));
    assert!(str_lt("MIT", "Zlib"));
    assert!(!str_lt("MIT", "MIT"));
    assert!(!str_lt("Zlib", "MIT"));
    assert!(str_lt("", "A"));
}

#[test]
fn join_with_separates_entries() {
    let items = vec!["a".to_owned(), "b".to_owned(), "c".to_owned()];
    assert_eq!(join_with(&items, ", "), "a, b, c");
    let one = vec!["a".to_owned()];
    assert_eq!(join_with(&one, ", "), "a");
    let none: Vec<String> = Vec::new();
    assert_eq!(join_with(&none, ", "), "");
}

#[test]
fn group_keys_come_out_sorted_and_distinct() {
    let deps = vec![
        dep("a", "1", Some("MIT"), "r", None),
        dep("b", "1", Some("Apache-2.0"), "r", None),
        dep("c", "1", Some("MIT"), "r", None),
    ];
    let groups = group_dependencies(deps);
    let keys: Vec<String> = groups.iter().map(|g| g.license.clone()).collect();
    assert_eq!(keys, vec!["Apache-2.0".to_owned(), "MIT".to_owned()]);
}
