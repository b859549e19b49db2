use pacman_update_viewer::graph::{dag_size, dep_dag_size, visit_dag, visit_dep_dag, Package, PackageDb};
use pacman_update_viewer::namemap::{NameMap, NameSet};
use pacman_update_viewer::names::{compare_names, NameOrder};
use pacman_update_viewer::state::sort_names;

fn pkg(version: &str, required_by: &[&str], depends_on: &[&str]) -> Package {
    Package {
        version: version.to_string(),
        required_by: required_by.iter().map(|s| s.to_string()).collect(),
        depends_on: depends_on.iter().map(|s| s.to_string()).collect(),
        groups: Vec::new(),
    }
}

/// glibc <- nss <- firefox, glibc <- bash; a <-> b form a cycle.
fn sample_db() -> PackageDb {
    let mut db = NameMap::new();
    db.insert("glibc".to_string(), pkg("2.39", &["nss", "bash"], &[]));
    db.insert("nss".to_string(), pkg("3.98", &["firefox"], &["glibc", "nspr"]));
    db.insert("firefox".to_string(), pkg("123.0", &[], &["nss"]));
    db.insert("bash".to_string(), pkg("5.2", &[], &["glibc"]));
    db.insert("a".to_string(), pkg("1", &["b"], &["b"]));
    db.insert("b".to_string(), pkg("1", &["a"], &["a"]));
    db
}

#[test]
fn names_compare_by_bytes() {
    assert_eq!(compare_names("a", "b"), NameOrder::Less);
    assert_eq!(compare_names("ab", "a"), NameOrder::Greater);
    assert_eq!(compare_names("a", "ab"), NameOrder::Less);
    assert_eq!(compare_names("B", "a"), NameOrder::Less);
    assert_eq!(compare_names("same", "same"), NameOrder::Equal);
    assert_eq!(compare_names("", ""), NameOrder::Equal);
    assert_eq!(compare_names("z", "\u{e9}"), NameOrder::Less);
}

#[test]
fn name_map_insert_get_remove() {
    let mut m: NameMap<usize> = NameMap::new();
    assert_eq!(m.len(), 0);
    m.insert("zlib".to_string(), 1);
    m.insert("bash".to_string(), 2);
    m.insert("glibc".to_string(), 3);
    m.insert("bash".to_string(), 4);
    assert_eq!(m.len(), 3);
    assert_eq!(m.get("bash"), Some(&4));
    assert_eq!(m.get("nothing"), None);
    assert!(m.contains_key("zlib"));
    let names: Vec<String> = (0..m.len()).map(|i| m.entry(i).0.clone()).collect();
    assert_eq!(names, vec!["bash", "glibc", "zlib"]);
    m.remove("glibc");
    m.remove("absent");
    assert_eq!(m.len(), 2);
    assert!(!m.contains_key("glibc"));
}

#[test]
fn impact_counts_transitive_dependents() {
    let db = sample_db();
    // glibc is required by nss and bash, and nss by firefox.
    assert_eq!(dag_size("glibc", &db), 4);
    assert_eq!(dag_size("nss", &db), 2);
    assert_eq!(dag_size("firefox", &db), 1);
    // A name that is not installed counts itself only.
    assert_eq!(dag_size("unknown", &db), 1);
    // A cycle is counted once.
    assert_eq!(dag_size("a", &db), 2);
}

#[test]
fn reverse_impact_counts_transitive_dependencies() {
    let db = sample_db();
    // firefox -> nss -> glibc, nspr (nspr is not installed but counts).
    assert_eq!(dep_dag_size("firefox", &db), 4);
    assert_eq!(dep_dag_size("glibc", &db), 1);
    assert_eq!(dep_dag_size("b", &db), 2);
}

#[test]
fn visit_stops_at_visited_names() {
    let db = sample_db();
    let mut visited: NameSet = NameMap::new();
    visited.insert("nss".to_string(), ());
    visit_dag("glibc", &db, &mut visited);
    // firefox is only reachable through nss, which was already visited.
    assert!(visited.contains_key("glibc"));
    assert!(visited.contains_key("bash"));
    assert!(!visited.contains_key("firefox"));
    assert_eq!(visited.len(), 3);
    let mut v2: NameSet = NameMap::new();
    visit_dep_dag("firefox", &db, &mut v2);
    assert_eq!(v2.len(), 4);
    assert!(v2.contains_key("nspr"));
}

#[test]
fn names_sort_in_string_order() {
    let v = vec!["nss".to_string(), "bash".to_string(), "Zed".to_string(), "bash".to_string()];
    assert_eq!(sort_names(v), vec!["Zed", "bash", "bash", "nss"]);
}
