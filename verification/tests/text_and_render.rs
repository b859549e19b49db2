use pacman_update_viewer::layout::centered_rect;
use pacman_update_viewer::graph::{Package, PackageDb};
use pacman_update_viewer::namemap::NameMap;
use pacman_update_viewer::render::{column_widths, decimal_digits, footer, format_row, group_label, labelled_row, title};
use pacman_update_viewer::state::{name_matches, AllPkgInfo, ItemKind, Mode, UpdateInfo, VisibleItem};
use pacman_update_viewer::text::{contains_text, split_lines, split_whitespace, without_last_char};

#[test]
fn whitespace_splitting() {
    assert_eq!(split_whitespace("  a  b\tc\n"), vec!["a", "b", "c"]);
    assert!(split_whitespace("   ").is_empty());
    assert_eq!(split_whitespace("x\u{a0}y"), vec!["x", "y"]);
}

#[test]
fn line_splitting() {
    assert_eq!(split_lines("a\nb\r\nc"), vec!["a", "b", "c"]);
    assert_eq!(split_lines("a\n"), vec!["a"]);
    assert_eq!(split_lines("a\n\nb\n"), vec!["a", "", "b"]);
    assert!(split_lines("").is_empty());
    assert_eq!(split_lines("\n"), vec![""]);
}

#[test]
fn substring_search() {
    assert!(contains_text("linux-firmware", "firm"));
    assert!(contains_text("abc", ""));
    assert!(!contains_text("abc", "abcd"));
    assert!(!contains_text("abc", "ac"));
}

#[test]
fn search_filter_ignores_case() {
    assert!(name_matches(&None, "anything"));
    assert!(name_matches(&Some("lib".to_string()), "GLibC"));
    assert!(!name_matches(&Some("xyz".to_string()), "GLibC"));
}

#[test]
fn dropping_the_last_character() {
    assert_eq!(without_last_char(&"abc".to_string()), "ab");
    assert_eq!(without_last_char(&"".to_string()), "");
    assert_eq!(without_last_char(&"\u{e9}".to_string()), "");
}

#[test]
fn decimal_numbers() {
    assert_eq!(decimal_digits(0), vec!['0']);
    assert_eq!(decimal_digits(1234), vec!['1', '2', '3', '4']);
    assert_eq!(decimal_digits(10), vec!['1', '0']);
}

fn item(name: &str, depth: usize, kind: ItemKind, has_children: bool, is_expanded: bool, is_cycle: bool) -> VisibleItem {
    VisibleItem { name: name.to_string(), depth, kind, has_children, is_expanded, is_cycle }
}

#[test]
fn row_text_columns() {
    let root = item(
        "glibc",
        0,
        ItemKind::Root { old_version: "2.38".to_string(), new_version: "2.39".to_string(), impact: 42 },
        true,
        false,
        false,
    );
    assert_eq!(format_row(&root, 8, 5, 10), format!("{}{} {:>4}  {:<8}  {:<5}  ->  {}", "", "\u{25b6}", 42, "glibc", "2.38", "2.39"));
    let dep = item(
        "nss",
        2,
        ItemKind::Dep { installed_version: Some("3.98".to_string()), impact: 12345 },
        false,
        false,
        true,
    );
    assert_eq!(format_row(&dep, 8, 5, 10), "      12345  nss (\u{21ba})  3.98");
    let missing = item("nspr", 1, ItemKind::Dep { installed_version: None, impact: 1 }, true, true, false);
    assert_eq!(format_row(&missing, 8, 5, 10), "  \u{25bc}    1  nspr  ?");
    let all = item("bash", 0, ItemKind::AllPkgRoot { version: "5.2".to_string(), impact: 7 }, false, false, false);
    assert_eq!(format_row(&all, 8, 5, 6), "     7  bash    5.2");
}

#[test]
fn titles_and_footers() {
    assert_eq!(title(Mode::Updates, false), " Pacman Updates [used-by\u{2191}] \u{2014} impact  package  old \u{2192} new ");
    assert_eq!(title(Mode::AllPackages, true), " All Packages [deps\u{2193}] \u{2014} impact  package  version ");
    assert_eq!(footer(true, Mode::Updates, false), "  \u{2191}\u{2193} navigate   enter confirm   esc cancel");
    assert_eq!(
        footer(false, Mode::AllPackages, true),
        "  \u{2191}\u{2193} navigate   \u{2190}\u{2192} collapse/expand   i info   / search   r update   d remove   a updates   t transpose   h help   q quit (update succeeded)"
    );
}

#[test]
fn column_widths_use_longest_entry_or_ten() {
    let roots = vec![
        UpdateInfo { name: "ab".to_string(), old_version: "1.0.0".to_string(), new_version: "2".to_string(), impact: 1 },
        UpdateInfo { name: "abcd".to_string(), old_version: "1".to_string(), new_version: "2".to_string(), impact: 1 },
    ];
    let all: Vec<AllPkgInfo> = Vec::new();
    assert_eq!(column_widths(&roots, &all), (4, 5, 10));
}

#[test]
fn popups_are_centered() {
    assert_eq!(centered_rect(50, 50, (0, 0, 100, 100)), (25, 25, 50, 50));
    assert_eq!(centered_rect(80, 80, (0, 0, 100, 50)), (10, 5, 80, 40));
}

fn grouped(groups: &[&str]) -> Package {
    Package {
        version: "1".to_string(),
        required_by: Vec::new(),
        depends_on: Vec::new(),
        groups: groups.iter().map(|g| g.to_string()).collect(),
    }
}

#[test]
fn group_labels() {
    let mut db: PackageDb = NameMap::new();
    db.insert("gcc".to_string(), grouped(&["base-devel", "devel"]));
    db.insert("sed".to_string(), grouped(&["base-devel"]));
    db.insert("foo".to_string(), grouped(&[]));
    assert_eq!(group_label(&db, "gcc"), "  [base-devel, devel]");
    assert_eq!(group_label(&db, "sed"), "  [base-devel]");
    assert_eq!(group_label(&db, "foo"), "");
    assert_eq!(group_label(&db, "missing"), "");
    let row = item("gcc", 1, ItemKind::Dep { installed_version: Some("1".to_string()), impact: 3 }, false, false, false);
    let plain = format_row(&row, 10, 10, 10);
    assert_eq!(labelled_row(&row, 10, 10, 10, &db, false), plain);
    assert_eq!(labelled_row(&row, 10, 10, 10, &db, true), format!("{plain}  [base-devel, devel]"));
}

#[test]
fn popups_are_centred_within_a_cell() {
    for &(px, py, w, h) in &[(55u16, 60u16, 81u16, 25u16), (80, 80, 37, 11), (55, 60, 200, 50)] {
        let (x, y, rw, rh) = centered_rect(px, py, (3, 2, w, h));
        let m = (100 - px as i64) / 2;
        let start = 100 * x as i64 - (300 + w as i64 * m);
        let end = 100 * (x as i64 + rw as i64) - (300 + w as i64 * (m + px as i64));
        assert!(start.abs() < 100 && end.abs() < 100, "x: {px} {w} -> {x} {rw}");
        let m = (100 - py as i64) / 2;
        let start = 100 * y as i64 - (200 + h as i64 * m);
        let end = 100 * (y as i64 + rh as i64) - (200 + h as i64 * (m + py as i64));
        assert!(start.abs() < 100 && end.abs() < 100, "y: {py} {h} -> {y} {rh}");
    }
}
