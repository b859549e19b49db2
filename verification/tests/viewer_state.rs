use pacman_update_viewer::graph::{Package, PackageDb};
use pacman_update_viewer::keys::{Action, Key};
use pacman_update_viewer::namemap::NameMap;
use pacman_update_viewer::state::{build_state, initial_mode, AppState, Depgraph, ItemKind, Mode};

fn pkg(version: &str, required_by: &[&str], depends_on: &[&str]) -> Package {
    Package {
        version: version.to_string(),
        required_by: required_by.iter().map(|s| s.to_string()).collect(),
        depends_on: depends_on.iter().map(|s| s.to_string()).collect(),
        groups: Vec::new(),
    }
}

/// glibc <- {nss, bash}, nss <- firefox; a <-> b form a cycle.
fn sample_db() -> PackageDb {
    let mut db = NameMap::new();
    db.insert("glibc".to_string(), pkg("2.39", &["nss", "bash"], &[]));
    db.insert("nss".to_string(), pkg("3.98", &["firefox"], &["glibc", "nspr"]));
    db.insert("firefox".to_string(), pkg("123.0", &[], &["nss"]));
    db.insert("bash".to_string(), pkg("5.2", &[], &["glibc"]));
    db.insert("a".to_string(), pkg("1", &["b"], &["b"]));
    db.insert("b".to_string(), pkg("1", &["a"], &["a"]));
    db
}

fn updates() -> Vec<(String, String, String)> {
    vec![
        ("firefox".to_string(), "122".to_string(), "123".to_string()),
        ("glibc".to_string(), "2.38".to_string(), "2.39".to_string()),
        ("orphan".to_string(), "1".to_string(), "2".to_string()),
    ]
}

fn state() -> AppState {
    build_state(updates(), Some(Depgraph { packages: sample_db() }), Mode::Updates)
}

fn names(st: &AppState) -> Vec<(String, usize)> {
    st.visible().iter().map(|i| (i.name.clone(), i.depth)).collect()
}

#[test]
fn updates_are_sorted_by_impact() {
    let st = state();
    let order: Vec<(String, usize)> = st.roots.iter().map(|r| (r.name.clone(), r.impact)).collect();
    // firefox and orphan both have impact 1 and keep their order.
    assert_eq!(order, vec![("glibc".to_string(), 4), ("firefox".to_string(), 1), ("orphan".to_string(), 1)]);
    assert_eq!(st.cursor, 0);
    assert!(st.expanded.len() == 0);
}

#[test]
fn all_packages_sorted_by_impact_then_name() {
    let st = state();
    let order: Vec<(String, usize)> = st.all_roots.iter().map(|r| (r.name.clone(), r.impact)).collect();
    assert_eq!(
        order,
        vec![
            ("glibc".to_string(), 4),
            ("a".to_string(), 2),
            ("b".to_string(), 2),
            ("nss".to_string(), 2),
            ("bash".to_string(), 1),
            ("firefox".to_string(), 1),
        ]
    );
    assert_eq!(st.dep_impacts.get("firefox"), Some(&4));
}

#[test]
fn expanding_shows_sorted_dependents() {
    let mut st = state();
    st.expand_current();
    assert_eq!(
        names(&st),
        vec![("glibc".into(), 0), ("bash".into(), 1), ("nss".into(), 1), ("firefox".into(), 0), ("orphan".into(), 0)]
    );
    let vis = st.visible();
    assert!(vis[0].is_expanded && vis[0].has_children);
    assert!(!vis[1].has_children);
    match &vis[2].kind {
        ItemKind::Dep { installed_version, impact } => {
            assert_eq!(installed_version.as_deref(), Some("3.98"));
            assert_eq!(*impact, 2);
        }
        _ => panic!("expected a dependency row"),
    }
    match &vis[4].kind {
        ItemKind::Root { old_version, new_version, impact } => {
            assert_eq!((old_version.as_str(), new_version.as_str(), *impact), ("1", "2", 1));
        }
        _ => panic!("expected a root row"),
    }
}

#[test]
fn cycles_are_cut() {
    let mut st = build_state(Vec::new(), Some(Depgraph { packages: sample_db() }), Mode::AllPackages);
    // all_roots: glibc, a, b, ...; go to "a" and expand it, then its child "b".
    st.move_down();
    st.expand_current();
    st.move_down();
    st.expand_current();
    let vis = st.visible();
    assert_eq!(vis[1].name, "a");
    assert_eq!((vis[2].name.as_str(), vis[2].depth), ("b", 1));
    assert_eq!((vis[3].name.as_str(), vis[3].depth), ("a", 2));
    assert!(vis[3].is_cycle && !vis[3].has_children && !vis[3].is_expanded);
}

#[test]
fn collapse_and_go_to_parent() {
    let mut st = state();
    st.expand_current();
    st.move_down();
    st.move_down();
    assert_eq!(st.cursor, 2);
    st.collapse_or_go_to_parent();
    assert_eq!(st.cursor, 0);
    st.collapse_or_go_to_parent();
    assert!(!st.expanded.contains_key("glibc"));
    assert_eq!(names(&st).len(), 3);
}

#[test]
fn cursor_stays_on_the_list() {
    let mut st = state();
    st.move_up();
    assert_eq!(st.cursor, 0);
    st.move_down();
    st.move_down();
    st.move_down();
    assert_eq!(st.cursor, 2);
    st.cursor = 10;
    st.clamp_cursor();
    assert_eq!(st.cursor, 2);
}

#[test]
fn transposing_resorts_and_collapses() {
    let mut st = state();
    st.expand_current();
    st.toggle_transposed();
    assert!(st.transposed);
    assert_eq!(st.expanded.len(), 0);
    assert_eq!(st.cursor, 0);
    let order: Vec<String> = st.roots.iter().map(|r| r.name.clone()).collect();
    // Reverse impacts: firefox 4, glibc 1, orphan 1 (unknown).
    assert_eq!(order, vec!["firefox", "glibc", "orphan"]);
    assert_eq!(st.impact_of("firefox"), 4);
    assert_eq!(st.children_of("firefox"), vec!["nss"]);
    st.toggle_transposed();
    assert!(!st.transposed);
}

#[test]
fn mode_toggle_switches_lists() {
    let mut st = state();
    st.move_down();
    st.toggle_mode();
    assert_eq!(st.mode, Mode::AllPackages);
    assert_eq!(st.cursor, 0);
    assert_eq!(names(&st).len(), 6);
    st.toggle_mode();
    assert_eq!(st.mode, Mode::Updates);
}

#[test]
fn reload_drops_removed_packages() {
    let mut st = state();
    st.expand_current();
    st.move_down();
    st.move_down();
    let mut db = sample_db();
    db.remove("glibc");
    st.reload_packages(db);
    let order: Vec<(String, usize)> = st.roots.iter().map(|r| (r.name.clone(), r.impact)).collect();
    assert_eq!(order, vec![("firefox".to_string(), 1)]);
    assert!(!st.expanded.contains_key("glibc"));
    assert_eq!(st.impacts.get("nss"), Some(&2));
    assert_eq!(st.all_roots.len(), 5);
    assert_eq!(st.cursor, 0);
}

#[test]
fn search_filters_roots_and_enter_keeps_selection() {
    let mut st = state();
    st.expand_current();
    assert!(matches!(st.handle_key(Key::Char('/')), Action::Stay));
    assert!(st.search.is_some());
    for c in "FOX".chars() {
        st.handle_key(Key::Char(c));
    }
    assert_eq!(names(&st), vec![("firefox".into(), 0)]);
    st.handle_key(Key::Backspace);
    assert_eq!(st.search.as_ref().unwrap().query, "FO");
    st.handle_key(Key::Enter);
    assert!(st.search.is_none());
    assert_eq!(st.visible()[st.cursor].name, "firefox");
    assert_eq!(st.cursor, 3);
}

#[test]
fn search_escape_restores_cursor() {
    let mut st = state();
    st.move_down();
    st.handle_key(Key::Char('/'));
    st.handle_key(Key::Char('z'));
    assert_eq!(st.visible().len(), 0);
    st.handle_key(Key::Esc);
    assert!(st.search.is_none());
    assert_eq!(st.cursor, 1);
}

#[test]
fn keys_ask_for_outside_work() {
    let mut st = state();
    match st.handle_key(Key::Char('i')) {
        Action::ShowInfo { package } => {
            assert_eq!(package, "glibc");
            st.open_info(package, "Name : glibc".to_string());
        }
        _ => panic!("expected ShowInfo"),
    }
    st.handle_key(Key::Down);
    st.handle_key(Key::Down);
    st.handle_key(Key::Up);
    assert_eq!(st.info_popup.as_ref().unwrap().scroll, 1);
    st.handle_key(Key::Char('x'));
    assert!(st.info_popup.is_none());
    assert!(matches!(st.handle_key(Key::Char('r')), Action::RunUpdate));
    st.finish_update(true);
    st.finish_update(false);
    match st.handle_key(Key::Char('d')) {
        Action::RemovePackage { package } => assert_eq!(package, "glibc"),
        _ => panic!("expected RemovePackage"),
    }
    match st.handle_key(Key::Char('q')) {
        Action::Quit { update_succeeded } => assert!(update_succeeded),
        _ => panic!("expected Quit"),
    }
}

#[test]
fn help_closes_on_any_key() {
    let mut st = state();
    st.handle_key(Key::Char('?'));
    assert!(st.show_help);
    st.handle_key(Key::Char('q'));
    assert!(!st.show_help);
    st.handle_key(Key::Right);
    assert!(st.expanded.contains_key("glibc"));
    st.handle_key(Key::Left);
    assert!(!st.expanded.contains_key("glibc"));
    st.handle_key(Key::Char('a'));
    assert_eq!(st.mode, Mode::AllPackages);
    st.handle_key(Key::Char('t'));
    assert!(st.transposed);
}

#[test]
fn empty_state_without_depgraph() {
    let st = build_state(updates(), None, Mode::Updates);
    assert_eq!(st.packages.len(), 0);
    assert_eq!(st.roots.len(), 3);
    assert!(st.roots.iter().all(|r| r.impact == 1));
    assert_eq!(st.visible().len(), 3);
    assert!(st.visible().iter().all(|i| !i.has_children));
}

#[test]
fn opens_on_updates_then_all_packages() {
    assert!(initial_mode(true, true) == Some(Mode::Updates));
    assert!(initial_mode(true, false) == Some(Mode::Updates));
    assert!(initial_mode(false, true) == Some(Mode::AllPackages));
    assert!(initial_mode(false, false).is_none());
}

#[test]
fn every_key_keeps_cursor_on_list_and_data() {
    let mut st = state();
    st.finish_update(true);
    let keys = [
        Key::Right, Key::Down, Key::Down, Key::Right, Key::Down, Key::Down, Key::Down, Key::Down,
        Key::Left, Key::Char('t'), Key::Right, Key::Down, Key::Char('/'), Key::Char('s'),
        Key::Down, Key::Enter, Key::Char('a'), Key::Down, Key::Down, Key::Right, Key::Down,
        Key::Right, Key::Down, Key::Left, Key::Left, Key::Char('/'), Key::Char('q'), Key::Esc,
        Key::Up, Key::Other, Key::Char('h'), Key::Char('x'),
    ];
    for key in keys {
        st.handle_key(key);
        let len = st.visible().len();
        assert!(st.cursor < len || st.cursor == 0, "cursor {} off a list of {}", st.cursor, len);
        assert!(st.update_succeeded);
        assert_eq!(st.packages.len(), 6);
        assert_eq!(st.impacts.get("glibc"), Some(&4));
    }
}

#[test]
fn enter_keeps_a_root_found_below_an_expanded_one() {
    let mut st = build_state(Vec::new(), Some(Depgraph { packages: sample_db() }), Mode::AllPackages);
    st.expand_current();
    st.handle_key(Key::Char('/'));
    st.handle_key(Key::Char('n'));
    st.handle_key(Key::Char('s'));
    assert_eq!(names(&st), vec![("nss".into(), 0)]);
    st.handle_key(Key::Enter);
    // glibc is still expanded, so nss appears first as its child (depth 1)
    // and then as a root; the cursor goes to the root.
    let vis = st.visible();
    assert_eq!((vis[st.cursor].name.as_str(), vis[st.cursor].depth), ("nss", 0));
    assert_eq!(st.cursor, 5);
}

#[test]
fn g_toggles_group_labels_only() {
    let mut st = state();
    st.expand_current();
    st.move_down();
    let before = names(&st);
    assert!(!st.show_groups);
    assert!(matches!(st.handle_key(Key::Char('g')), Action::Stay));
    assert!(st.show_groups);
    assert_eq!(names(&st), before);
    assert_eq!(st.cursor, 1);
    st.handle_key(Key::Char('g'));
    assert!(!st.show_groups);
}

#[test]
fn expand_then_collapse_restores_the_state() {
    let mut st = state();
    // glibc, under the cursor, is shown once and has dependents.
    let before = names(&st);
    st.handle_key(Key::Right);
    assert!(names(&st).len() > before.len());
    st.handle_key(Key::Left);
    assert_eq!(names(&st), before);
    assert_eq!(st.cursor, 0);
    assert_eq!(st.expanded.len(), 0);
}

#[test]
fn search_keeps_whole_blocks() {
    let mut st = state();
    st.expand_current();
    st.handle_key(Key::Char('/'));
    // the empty query shows everything
    assert_eq!(names(&st), vec![
        ("glibc".into(), 0), ("bash".into(), 1), ("nss".into(), 1), ("firefox".into(), 0), ("orphan".into(), 0)
    ]);
    st.handle_key(Key::Char('L'));
    // glibc keeps its expanded block; firefox and orphan do not match
    assert_eq!(names(&st), vec![("glibc".into(), 0), ("bash".into(), 1), ("nss".into(), 1)]);
}

#[test]
fn resort_twice_changes_nothing() {
    let mut st = state();
    st.toggle_transposed();
    st.resort();
    let roots: Vec<String> = st.roots.iter().map(|r| r.name.clone()).collect();
    let all: Vec<String> = st.all_roots.iter().map(|r| r.name.clone()).collect();
    st.resort();
    assert_eq!(st.roots.iter().map(|r| r.name.clone()).collect::<Vec<_>>(), roots);
    assert_eq!(st.all_roots.iter().map(|r| r.name.clone()).collect::<Vec<_>>(), all);
}

#[test]
fn direct_expand_then_collapse_while_searching() {
    let mut st = state();
    st.handle_key(Key::Char('/'));
    st.handle_key(Key::Char('g'));
    let before = names(&st);
    st.expand_current();
    assert!(st.visible()[st.cursor].is_expanded);
    st.collapse_or_go_to_parent();
    assert_eq!(names(&st), before);
    assert_eq!(st.cursor, 0);
    assert_eq!(st.expanded.len(), 0);
}
