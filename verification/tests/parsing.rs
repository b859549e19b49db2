use pacman_update_viewer::parse::{parse_checkupdates, parse_pacman_qi, package_db};

#[test]
fn checkupdates_lines_give_name_old_and_new() {
    let out = parse_checkupdates("linux 6.1-1 -> 6.2-1\nbash 5.1 -> 5.2\n");
    assert_eq!(out.len(), 2);
    assert_eq!(out[0], ("linux".to_string(), "6.1-1".to_string(), "6.2-1".to_string()));
    assert_eq!(out[1], ("bash".to_string(), "5.1".to_string(), "5.2".to_string()));
}

#[test]
fn checkupdates_skips_short_lines() {
    let out = parse_checkupdates("\njunk line\nglibc 2.38 -> 2.39 [ignored]\n");
    assert_eq!(out, vec![("glibc".to_string(), "2.38".to_string(), "2.39".to_string())]);
}

#[test]
fn pacman_qi_records() {
    let text = "Name            : nss\nVersion         : 3.98-1\nGroups          : base  crypto\nDepends On      : nspr>=4.34  glibc\nRequired By     : firefox\nInstall Reason  : Installed as a dependency for another package\n\nName            : firefox\nVersion         : 123.0-1\nDepends On      : nss\nGroups          : None\nRequired By     : None\nInstall Reason  : Explicitly installed\n";
    let recs = parse_pacman_qi(text);
    assert_eq!(recs.len(), 2);
    assert_eq!(recs[0].name, "nss");
    assert_eq!(recs[0].version, "3.98-1");
    assert_eq!(recs[0].depends_on, vec!["nspr".to_string(), "glibc".to_string()]);
    assert_eq!(recs[0].required_by, vec!["firefox".to_string()]);
    assert!(!recs[0].explicit);
    assert_eq!(recs[1].name, "firefox");
    assert!(recs[1].explicit);
    assert!(recs[1].required_by.is_empty());
    assert_eq!(recs[0].groups, vec!["base".to_string(), "crypto".to_string()]);
    assert!(recs[1].groups.is_empty());
    let db = package_db(recs);
    assert_eq!(db.len(), 2);
    assert!(db.contains_key("nss"));
    assert_eq!(db.get("firefox").unwrap().version, "123.0-1");
    assert_eq!(db.get("nss").unwrap().groups.len(), 2);
}
