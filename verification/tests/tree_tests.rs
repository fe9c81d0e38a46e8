use tree_gen::entry::{checked_directory_size, get_directory_size, Entry, EntryKind, TextLine};
use tree_gen::filter::{
    apply_date_filter, char_is_space, contains_matching_files_extension, parse_date_filter,
    passes_filters, split_words, ConfigError, DateFilter, FilterConfig,
};
use tree_gen::date::{parse_date, DateError};
use tree_gen::generate::{generate_tree, BranchStyle, Line, LineKind, RenderOptions};
use tree_gen::json::{generate_json_tree, TreeNode};
use tree_gen::pattern::{matches_pattern, Pattern};

fn file(name: &str, size: u64, modified: u64) -> Entry {
    Entry {
        name: name.to_string(),
        kind: EntryKind::File,
        size: Some(size),
        modified: Some(modified),
        mode: Some(0o100644),
        content: None,
        children: vec![],
    }
}

fn dir(name: &str, children: Vec<Entry>) -> Entry {
    Entry {
        name: name.to_string(),
        kind: EntryKind::Directory,
        size: Some(4096),
        modified: Some(1_600_000_000),
        mode: Some(0o40755),
        content: None,
        children,
    }
}

fn sample() -> Entry {
    dir(
        "project",
        vec![
            file(".env", 10, 1_500_000_000),
            dir(
                "src",
                vec![
                    file("main.rs", 2048, 1_600_000_000),
                    file("notes.txt", 100, 1_400_000_000),
                    dir("deep", vec![file("lib.rs", 512, 1_650_000_000)]),
                ],
            ),
            dir("docs", vec![file("readme.md", 1536, 1_580_000_000)]),
            file("Cargo.toml", 300, 1_590_000_000),
            dir(".git", vec![file("config.rs", 1, 1)]),
        ],
    )
}

fn plain() -> RenderOptions {
    RenderOptions {
        max_depth: Some(10),
        show_size: false,
        branch_style: BranchStyle::Unicode,
        preview_lines: None,
    }
}

fn config(
    extension: Option<&str>,
    date_filter: Option<&str>,
    must_match: Option<&str>,
    must_not_match: Option<&str>,
    ignore_hidden: bool,
) -> FilterConfig {
    FilterConfig::new(
        extension.map(|s| s.to_string()),
        None,
        None,
        date_filter.map(|s| s.to_string()),
        must_match.map(|s| s.to_string()),
        must_not_match.map(|s| s.to_string()),
        ignore_hidden,
    )
    .unwrap()
}

fn texts(lines: &[Line]) -> Vec<String> {
    lines.iter().map(|l| l.text()).collect()
}

fn entry_names(lines: &[Line]) -> Vec<String> {
    lines.iter().filter(|l| l.kind != LineKind::Preview).map(|l| l.name.clone()).collect()
}

fn names_below(node: &TreeNode, into: &mut Vec<String>) {
    for child in &node.children {
        into.push(child.name.clone());
        names_below(child, into);
    }
}

#[test]
fn draws_the_whole_tree() {
    let lines = generate_tree(&sample(), "", 1, &FilterConfig::unfiltered(), &plain());
    assert_eq!(
        texts(&lines),
        vec![
            "├── .env",
            "├── src",
            "│   ├── main.rs",
            "│   ├── notes.txt",
            "│   └── deep",
            "│       └── lib.rs",
            "├── docs",
            "│   └── readme.md",
            "├── Cargo.toml",
            "└── .git",
            "    └── config.rs",
        ]
    );
}

#[test]
fn draws_with_ascii_branches() {
    let options = RenderOptions { branch_style: BranchStyle::Ascii, ..plain() };
    let lines = generate_tree(&sample(), ">", 1, &config(None, None, None, None, true), &options);
    assert_eq!(
        texts(&lines),
        vec![
            ">|-- src",
            ">|   |-- main.rs",
            ">|   |-- notes.txt",
            ">|   `-- deep",
            ">|       `-- lib.rs",
            ">|-- docs",
            ">|   `-- readme.md",
            ">`-- Cargo.toml",
        ]
    );
}

#[test]
fn style_by_name() {
    assert_eq!(BranchStyle::from_name(Some("ascii")), BranchStyle::Ascii);
    assert_eq!(BranchStyle::from_name(Some("unicode")), BranchStyle::Unicode);
    assert_eq!(BranchStyle::from_name(Some("ASCII")), BranchStyle::Unicode);
    assert_eq!(BranchStyle::from_name(None), BranchStyle::Unicode);
}

#[test]
fn hidden_file_is_absent_only_when_hidden_entries_are_ignored() {
    let shown = generate_tree(&sample(), "", 1, &config(None, None, None, None, false), &plain());
    assert!(entry_names(&shown).contains(&".env".to_string()));
    let hidden = generate_tree(&sample(), "", 1, &config(None, None, None, None, true), &plain());
    assert!(!entry_names(&hidden).contains(&".env".to_string()));
    assert!(!entry_names(&hidden).contains(&".git".to_string()));
    assert!(!entry_names(&hidden).contains(&"config.rs".to_string()));
}

#[test]
fn extension_filter_keeps_directories_that_lead_to_a_match() {
    let lines = generate_tree(&sample(), "", 1, &config(Some("rs"), None, None, None, true), &plain());
    assert_eq!(
        texts(&lines),
        vec!["└── src", "    ├── main.rs", "    └── deep", "        └── lib.rs"]
    );
}

#[test]
fn extension_filter_looks_into_hidden_directories_unless_told_not_to() {
    let lines = generate_tree(&sample(), "", 1, &config(Some("rs"), None, None, None, false), &plain());
    assert_eq!(
        texts(&lines),
        vec![
            "├── src",
            "│   ├── main.rs",
            "│   └── deep",
            "│       └── lib.rs",
            "└── .git",
            "    └── config.rs",
        ]
    );
}

#[test]
fn max_depth_zero_draws_nothing() {
    let options = RenderOptions { max_depth: Some(0), ..plain() };
    let lines = generate_tree(&sample(), "", 1, &FilterConfig::unfiltered(), &options);
    assert!(lines.is_empty());
    let node = generate_json_tree(&sample(), "root", 1, Some(0), &FilterConfig::unfiltered());
    assert_eq!(node.name, "project");
    assert!(node.children.is_empty());
}

#[test]
fn max_depth_one_draws_direct_children_only() {
    let options = RenderOptions { max_depth: Some(1), ..plain() };
    let lines = generate_tree(&sample(), "", 1, &FilterConfig::unfiltered(), &options);
    assert_eq!(
        texts(&lines),
        vec!["├── .env", "├── src", "├── docs", "├── Cargo.toml", "└── .git"]
    );
    let node = generate_json_tree(&sample(), "root", 1, Some(1), &FilterConfig::unfiltered());
    assert_eq!(node.children.len(), 5);
    assert!(node.children.iter().all(|c| c.children.is_empty()));
}

#[test]
fn no_depth_limit_draws_everything() {
    let options = RenderOptions { max_depth: None, ..plain() };
    let lines = generate_tree(&sample(), "", usize::MAX, &FilterConfig::unfiltered(), &options);
    assert_eq!(lines.len(), 11);
    let limited = RenderOptions { max_depth: Some(usize::MAX), ..plain() };
    assert_eq!(generate_tree(&sample(), "", 0, &FilterConfig::unfiltered(), &limited).len(), 11);
}

#[test]
fn sizes_are_shown_in_kibibytes() {
    let options = RenderOptions { show_size: true, ..plain() };
    let mut tree = sample();
    tree.children[3].size = None;
    let lines = generate_tree(&tree, "", 1, &config(None, None, None, None, true), &options);
    assert_eq!(
        texts(&lines),
        vec![
            "├── src (2.60 KB)",
            "│   ├── main.rs (2.00 KB)",
            "│   ├── notes.txt (0.10 KB)",
            "│   └── deep (0.50 KB)",
            "│       └── lib.rs (0.50 KB)",
            "├── docs (1.50 KB)",
            "│   └── readme.md (1.50 KB)",
            "└── Cargo.toml (size unknown)",
        ]
    );
}

#[test]
fn directory_size_ignores_the_filters() {
    let options = RenderOptions { show_size: true, ..plain() };
    let lines = generate_tree(&sample(), "", 1, &config(Some("rs"), None, None, None, true), &options);
    // notes.txt is not shown, but its 100 bytes count.
    assert_eq!(lines[0].text(), "└── src (2.60 KB)");
}

#[test]
fn size_agrees_with_floating_point_formatting() {
    for bytes in [0u64, 1, 5, 128, 384, 640, 896, 1023, 1024, 1029, 1030, 1152, 1536, 123_456_789, 1 << 40, (1 << 53) - 1] {
        let tree = dir("d", vec![file("f", bytes, 0)]);
        let options = RenderOptions { show_size: true, ..plain() };
        let lines = generate_tree(&tree, "", 1, &FilterConfig::unfiltered(), &options);
        assert_eq!(lines[0].size, format!(" ({:.2} KB)", bytes as f64 / 1024.0));
    }
}

#[test]
fn ties_round_to_the_even_hundredth() {
    let options = RenderOptions { show_size: true, ..plain() };
    let tree = dir("d", vec![file("a", 128, 0), file("b", 384, 0), file("c", u64::MAX, 0)]);
    let lines = generate_tree(&tree, "", 1, &FilterConfig::unfiltered(), &options);
    assert_eq!(lines[0].size, " (0.12 KB)");
    assert_eq!(lines[1].size, " (0.38 KB)");
    assert_eq!(lines[2].size, " (18014398509481984.00 KB)");
}

#[test]
fn directory_sizes() {
    let tree = sample();
    assert_eq!(get_directory_size(&tree), 10 + 2048 + 100 + 512 + 1536 + 300 + 1);
    assert_eq!(checked_directory_size(&tree), Some(4507));
    assert_eq!(get_directory_size(&file("f", 7, 0)), 0);
    let mut unknown = dir("d", vec![file("a", 5, 0), file("b", 6, 0)]);
    unknown.children[0].size = None;
    assert_eq!(get_directory_size(&unknown), 6);
    let big = dir("d", vec![file("a", u64::MAX, 0), dir("e", vec![file("b", 1, 0)])]);
    assert_eq!(checked_directory_size(&big), None);
    let fits = dir("d", vec![file("a", u64::MAX - 1, 0), dir("e", vec![file("b", 1, 0)])]);
    assert_eq!(checked_directory_size(&fits), Some(u64::MAX));
}

#[test]
fn previews_follow_files() {
    let mut first = file("a.txt", 1, 0);
    first.content = Some(vec![
        TextLine::Text("one".to_string()),
        TextLine::Text("two".to_string()),
        TextLine::Text("three".to_string()),
    ]);
    let mut second = file("b.bin", 1, 0);
    second.content = Some(vec![
        TextLine::Text("ok".to_string()),
        TextLine::Undecodable,
        TextLine::Text("never shown".to_string()),
    ]);
    let third = file("c.txt", 1, 0);
    let tree = dir("d", vec![first, second, third]);
    let options = RenderOptions { preview_lines: Some(2), ..plain() };
    let lines = generate_tree(&tree, "", 1, &FilterConfig::unfiltered(), &options);
    assert_eq!(
        texts(&lines),
        vec![
            "├── a.txt",
            "|    one",
            "|    two",
            "├── b.bin",
            "|    ok",
            "|    Cannot display preview: non-UTF-8 content",
            "└── c.txt",
        ]
    );
    assert_eq!(entry_names(&lines), vec!["a.txt", "b.bin", "c.txt"]);
    let one = RenderOptions { preview_lines: Some(1), ..plain() };
    let lines = generate_tree(&tree, "", 1, &FilterConfig::unfiltered(), &one);
    assert_eq!(texts(&lines), vec!["├── a.txt", "|    one", "├── b.bin", "|    ok", "└── c.txt"]);
    let none = RenderOptions { preview_lines: Some(0), ..plain() };
    assert_eq!(generate_tree(&tree, "", 1, &FilterConfig::unfiltered(), &none).len(), 3);
}

#[test]
fn preview_of_the_last_file_is_indented_with_blanks() {
    let mut only = file("a.txt", 1, 0);
    only.content = Some(vec![TextLine::Text("one".to_string())]);
    let tree = dir("d", vec![dir("sub", vec![only])]);
    let options = RenderOptions { preview_lines: Some(5), ..plain() };
    let lines = generate_tree(&tree, "", 1, &FilterConfig::unfiltered(), &options);
    assert_eq!(texts(&lines), vec!["└── sub", "    └── a.txt", "         one"]);
}

#[test]
fn decorated_line_keeps_lead_and_size() {
    let options = RenderOptions { show_size: true, ..plain() };
    let tree = dir("d", vec![file("a", 1024, 0)]);
    let lines = generate_tree(&tree, "  ", 1, &FilterConfig::unfiltered(), &options);
    assert_eq!(lines[0].decorated("[a]"), "  └── [a] (1.00 KB)");
    assert_eq!(lines[0].kind, LineKind::File);
    assert_eq!(lines[0].lead, "  └── ");
}

#[test]
fn a_file_has_nothing_below_it() {
    let lines = generate_tree(&file("f", 1, 0), "", 1, &FilterConfig::unfiltered(), &plain());
    assert!(lines.is_empty());
}

#[test]
fn size_bounds_apply_to_files_only() {
    let config = FilterConfig::new(None, Some(200), Some(2048), None, None, None, true).unwrap();
    let lines = generate_tree(&sample(), "", 1, &config, &plain());
    assert_eq!(
        texts(&lines),
        vec![
            "├── src",
            "│   ├── main.rs",
            "│   └── deep",
            "│       └── lib.rs",
            "├── docs",
            "│   └── readme.md",
            "└── Cargo.toml",
        ]
    );
    let mut unknown = file("x", 0, 0);
    unknown.size = None;
    assert!(passes_filters(&unknown, &config));
    assert!(!passes_filters(&file("x", 199, 0), &config));
    assert!(passes_filters(&file("x", 200, 0), &config));
    assert!(passes_filters(&file("x", 2048, 0), &config));
    assert!(!passes_filters(&file("x", 2049, 0), &config));
}

#[test]
fn patterns_apply_to_files_only() {
    let keep = config(None, None, Some("^[a-z]+\\.rs$"), None, false);
    let lines = generate_tree(&sample(), "", 1, &keep, &plain());
    assert_eq!(
        entry_names(&lines),
        vec!["src", "main.rs", "deep", "lib.rs", "docs", ".git", "config.rs"]
    );
    let drop = config(None, None, None, Some("rs$|^\\."), false);
    let lines = generate_tree(&sample(), "", 1, &drop, &plain());
    assert_eq!(
        entry_names(&lines),
        vec!["src", "notes.txt", "deep", "docs", "readme.md", "Cargo.toml", ".git"]
    );
}

#[test]
fn pattern_matches_anywhere_in_the_name() {
    assert_eq!(matches_pattern("a+b", "xxaab.txt"), Some(true));
    assert_eq!(matches_pattern("^a+b$", "xxaab.txt"), Some(false));
    assert_eq!(matches_pattern("a+b", "a+b"), Some(false));
    assert_eq!(matches_pattern("(", "("), None);
    let pattern = Pattern::new("\\d{3}".to_string()).unwrap();
    assert!(pattern.is_match("file123"));
    assert!(!pattern.is_match("\\d{3}"));
    assert_eq!(pattern.as_str(), "\\d{3}");
    assert!(Pattern::new("[".to_string()).is_none());
}

#[test]
fn bad_patterns_are_refused_up_front() {
    let bad = FilterConfig::new(None, None, None, None, Some("(".to_string()), None, false);
    assert!(matches!(bad, Err(ConfigError::InvalidPattern)));
    let bad = FilterConfig::new(None, None, None, None, None, Some("[a".to_string()), false);
    assert!(matches!(bad, Err(ConfigError::InvalidPattern)));
    let both = FilterConfig::new(
        None,
        None,
        None,
        Some("before nonsense".to_string()),
        None,
        Some("[a".to_string()),
        false,
    );
    assert!(matches!(both, Err(ConfigError::InvalidPattern)));
}

#[test]
fn bad_dates_are_refused_up_front() {
    let bad = FilterConfig::new(None, None, None, Some("after 2020-13-01".to_string()), None, None, false);
    assert!(matches!(bad, Err(ConfigError::InvalidDate(DateError::InvalidDateRange))));
    let bad = FilterConfig::new(None, None, None, Some("before abc-01-01".to_string()), None, None, false);
    assert!(matches!(bad, Err(ConfigError::InvalidDate(DateError::InvalidDateComponent))));
    let bad = FilterConfig::new(None, None, None, Some("between 2020-01-01 2020".to_string()), None, None, false);
    assert!(matches!(bad, Err(ConfigError::InvalidDate(DateError::InvalidDateFormat))));
    let first = FilterConfig::new(None, None, None, Some("between 2020-00-01 x".to_string()), None, None, false);
    assert!(matches!(first, Err(ConfigError::InvalidDate(DateError::InvalidDateRange))));
}

#[test]
fn config_keeps_what_it_was_given() {
    let c = FilterConfig::new(
        Some("rs".to_string()),
        Some(1),
        Some(2),
        Some("after 1970-01-02".to_string()),
        Some("a".to_string()),
        Some("b".to_string()),
        true,
    )
    .unwrap();
    assert_eq!(c.extension, Some("rs".to_string()));
    assert_eq!(c.size_min, Some(1));
    assert_eq!(c.size_max, Some(2));
    assert_eq!(c.date_filter, DateFilter::After(86_400));
    assert_eq!(c.include_pattern.unwrap().as_str(), "a");
    assert_eq!(c.exclude_pattern.unwrap().as_str(), "b");
    assert!(c.ignore_hidden);
}

#[test]
fn date_filter_expressions() {
    assert_eq!(parse_date_filter("before 2020-01-01"), Ok(DateFilter::Before(1_577_836_800)));
    assert_eq!(parse_date_filter("  after\t2020-01-01\n"), Ok(DateFilter::After(1_577_836_800)));
    assert_eq!(
        parse_date_filter("between 1970-01-02 1970-01-03"),
        Ok(DateFilter::Between(86_400, 172_800))
    );
    assert_eq!(parse_date_filter("after\u{a0}2020-01-01"), Ok(DateFilter::After(1_577_836_800)));
    assert_eq!(parse_date_filter("after\u{3000}1970-01-01"), Ok(DateFilter::After(0)));
}

#[test]
fn unrecognized_date_filters_pass_everything() {
    for expr in ["", "   ", "since 2020-01-01", "before", "before 2020-01-01 2021-01-01", "between 2020-01-01", "Before 2020-01-01", "after2020-01-01", "after\u{200b}2020-01-01"] {
        assert_eq!(parse_date_filter(expr), Ok(DateFilter::Any));
        assert_eq!(apply_date_filter(Some(5), expr), Ok(true));
    }
}

#[test]
fn after_admits_strictly_later_times_only() {
    let bound = parse_date("2020-01-01").unwrap();
    assert_eq!(apply_date_filter(Some(bound - 1), "after 2020-01-01"), Ok(false));
    assert_eq!(apply_date_filter(Some(bound), "after 2020-01-01"), Ok(false));
    assert_eq!(apply_date_filter(Some(bound + 1), "after 2020-01-01"), Ok(true));
    let config = config(None, Some("after 2020-01-01"), None, None, true);
    let lines = generate_tree(&sample(), "", 1, &config, &plain());
    assert_eq!(entry_names(&lines), vec!["src", "main.rs", "deep", "lib.rs", "docs", "readme.md", "Cargo.toml"]);
}

#[test]
fn before_and_between_are_strict_too() {
    assert_eq!(apply_date_filter(Some(86_399), "before 1970-01-02"), Ok(true));
    assert_eq!(apply_date_filter(Some(86_400), "before 1970-01-02"), Ok(false));
    assert_eq!(apply_date_filter(Some(86_400), "between 1970-01-02 1970-01-03"), Ok(false));
    assert_eq!(apply_date_filter(Some(86_401), "between 1970-01-02 1970-01-03"), Ok(true));
    assert_eq!(apply_date_filter(Some(172_799), "between 1970-01-02 1970-01-03"), Ok(true));
    assert_eq!(apply_date_filter(Some(172_800), "between 1970-01-02 1970-01-03"), Ok(false));
    assert!(DateFilter::Between(5, 5).allows(None));
    assert!(!DateFilter::Between(5, 6).allows(Some(5)));
}

#[test]
fn unknown_modification_time_passes_every_window() {
    assert_eq!(apply_date_filter(None, "before 1970-01-01"), Ok(true));
    assert_eq!(apply_date_filter(None, "after 2999-01-01"), Ok(true));
    assert_eq!(apply_date_filter(None, "before 2020-13-01"), Err(DateError::InvalidDateRange));
    let mut entry = file("f", 1, 1);
    entry.modified = None;
    assert!(passes_filters(&entry, &config(None, Some("before 1970-01-01"), None, None, false)));
}

#[test]
fn date_window_applies_to_directories() {
    let config = config(None, Some("before 2020-01-01"), None, None, true);
    // The directories were modified in 2020-09, so nothing below them is reached.
    let lines = generate_tree(&sample(), "", 1, &config, &plain());
    assert!(lines.is_empty());
}

#[test]
fn probe_for_matching_files() {
    let tree = sample();
    let rs = "rs".to_string();
    let md = "md".to_string();
    let py = "py".to_string();
    assert!(contains_matching_files_extension(&tree, Some(&rs), true));
    assert!(contains_matching_files_extension(&tree, Some(&md), true));
    assert!(!contains_matching_files_extension(&tree, Some(&py), false));
    assert!(contains_matching_files_extension(&tree.children[4], Some(&rs), false));
    assert!(contains_matching_files_extension(&tree.children[4], Some(&rs), true));
    assert!(!contains_matching_files_extension(&dir("x", vec![tree]), Some(&rs), true) == false);
    let hidden_only = dir("x", vec![dir(".git", vec![file("config.rs", 1, 1)]), file(".a.rs", 1, 1)]);
    assert!(contains_matching_files_extension(&hidden_only, Some(&rs), false));
    assert!(!contains_matching_files_extension(&hidden_only, Some(&rs), true));
    assert!(contains_matching_files_extension(&hidden_only, None, false));
    assert!(!contains_matching_files_extension(&hidden_only, None, true));
    assert!(!contains_matching_files_extension(&dir("empty", vec![dir("e", vec![])]), None, false));
    assert!(!contains_matching_files_extension(&file("a.rs", 1, 1), Some(&rs), false));
}

#[test]
fn extensions_of_names() {
    let names = [
        ("main.rs", "rs", true),
        ("archive.tar.gz", "gz", true),
        ("archive.tar.gz", "tar.gz", false),
        ("archive.tar.gz", "tar", false),
        (".bashrc", "bashrc", false),
        (".config.rs", "rs", true),
        ("Makefile", "", false),
        ("trailing.", "", true),
        ("..", "", false),
        ("...", "", true),
        ("a.RS", "rs", false),
        ("x.rs", ".rs", false),
        ("übung.rs", "rs", true),
        ("x.ü", "ü", true),
    ];
    for (name, ext, expected) in names {
        let config = config(Some(ext), None, None, None, false);
        assert_eq!(passes_filters(&file(name, 1, 1), &config), expected, "{name} / {ext}");
    }
}

#[test]
fn empty_directory_is_kept_without_an_extension_filter() {
    let tree = dir("d", vec![dir("empty", vec![])]);
    let lines = generate_tree(&tree, "", 1, &FilterConfig::unfiltered(), &plain());
    assert_eq!(texts(&lines), vec!["└── empty"]);
    let lines = generate_tree(&tree, "", 1, &config(Some("rs"), None, None, None, false), &plain());
    assert!(lines.is_empty());
}

#[test]
fn last_branch_goes_to_the_last_entry_that_is_shown() {
    let tree = dir("d", vec![file("a.rs", 1, 1), file("b.txt", 1, 1), dir("c", vec![file("x.txt", 1, 1)])]);
    let lines = generate_tree(&tree, "", 1, &config(Some("rs"), None, None, None, false), &plain());
    assert_eq!(texts(&lines), vec!["└── a.rs"]);
}

#[test]
fn json_tree_reports_each_entry() {
    let mut tree = sample();
    tree.children[3].mode = None;
    tree.children[3].modified = None;
    tree.children[3].size = None;
    let node = generate_json_tree(&tree, "fallback", 1, None, &config(None, None, None, None, true));
    assert_eq!(node.name, "project");
    assert_eq!(node.node_type, "Directory");
    assert_eq!(node.size, "4.11 KB");
    assert_eq!(node.permission, "40755");
    assert_eq!(node.last_modification_date, "2020-09-09 12:26:40");
    assert_eq!(node.children.len(), 3);
    let src = &node.children[0];
    assert_eq!(src.name, "src");
    assert_eq!(src.size, "2.60 KB");
    assert_eq!(src.children.len(), 3);
    assert_eq!(src.children[0].name, "main.rs");
    assert_eq!(src.children[0].node_type, "File");
    assert_eq!(src.children[0].size, "2.00 KB");
    assert_eq!(src.children[0].permission, "100644");
    assert!(src.children[0].children.is_empty());
    assert_eq!(src.children[2].children[0].name, "lib.rs");
    let cargo = &node.children[2];
    assert_eq!(cargo.name, "Cargo.toml");
    assert_eq!(cargo.size, "size unknown");
    assert_eq!(cargo.permission, "permission unknown");
    assert_eq!(cargo.last_modification_date, "modified date unknown");
}

#[test]
fn json_root_without_a_name_takes_the_given_label() {
    let mut tree = sample();
    tree.name = String::new();
    let node = generate_json_tree(&tree, "fallback", 1, None, &FilterConfig::unfiltered());
    assert_eq!(node.name, "fallback");
    assert_eq!(node.children[0].name, ".env");
}

#[test]
fn json_permission_is_octal() {
    let mut f = file("f", 0, 0);
    f.mode = Some(0);
    assert_eq!(generate_json_tree(&f, "r", 1, None, &FilterConfig::unfiltered()).permission, "0");
    f.mode = Some(u32::MAX);
    assert_eq!(
        generate_json_tree(&f, "r", 1, None, &FilterConfig::unfiltered()).permission,
        format!("{:o}", u32::MAX)
    );
    f.mode = Some(0o7);
    assert_eq!(generate_json_tree(&f, "r", 1, None, &FilterConfig::unfiltered()).permission, "7");
}

#[test]
fn json_and_text_show_the_same_names() {
    let configs = [
        FilterConfig::unfiltered(),
        config(Some("rs"), None, None, None, true),
        config(Some("rs"), None, None, None, false),
        config(None, Some("after 2020-01-01"), None, None, false),
        config(None, None, Some("o"), Some("^m"), true),
        FilterConfig::new(None, Some(100), Some(1536), None, None, None, false).unwrap(),
    ];
    for config in &configs {
        for max_depth in [None, Some(0), Some(1), Some(2), Some(3)] {
            let options = RenderOptions { max_depth, ..plain() };
            let lines = generate_tree(&sample(), "", 1, config, &options);
            let node = generate_json_tree(&sample(), "root", 1, max_depth, config);
            let mut names = Vec::new();
            names_below(&node, &mut names);
            assert_eq!(entry_names(&lines), names);
        }
    }
}

#[test]
fn every_entry_drawn_passes_the_filters() {
    let config = config(Some("rs"), Some("after 2000-01-01"), Some("^[a-z]"), Some("lib"), true);
    let tree = sample();
    let lines = generate_tree(&tree, "", 1, &config, &plain());
    // `deep` leads to a file with the extension, so it stays, though that
    // file itself is dropped by the pattern.
    assert_eq!(entry_names(&lines), vec!["src", "main.rs", "deep"]);
    assert!(passes_filters(&tree.children[1], &config));
    assert!(passes_filters(&tree.children[1].children[0], &config));
    assert!(passes_filters(&tree.children[1].children[2], &config));
    assert!(!passes_filters(&tree.children[1].children[1], &config));
    assert!(!passes_filters(&tree.children[1].children[2].children[0], &config));
    assert!(!passes_filters(&tree.children[0], &config));
    assert!(!passes_filters(&tree.children[2], &config));
}

#[test]
fn white_space_is_what_unicode_says() {
    let mut code = 0u32;
    while code <= 0x10ffff {
        if let Some(c) = char::from_u32(code) {
            assert_eq!(char_is_space(c), c.is_whitespace(), "U+{code:04X}");
        }
        code += 1;
    }
}

#[test]
fn words_are_cut_at_white_space() {
    for text in ["", " ", "a", " a", "a ", "a b", "  before\t2020-01-01 \n", "a\u{2003}b\u{a0}\u{a0}c", "x\u{200b}y"] {
        let chars: Vec<char> = text.chars().collect();
        let found: Vec<String> = split_words(&chars).iter().map(|w| w.iter().collect()).collect();
        let expected: Vec<String> = text.split_whitespace().map(|w| w.to_string()).collect();
        assert_eq!(found, expected, "{text:?}");
    }
}
