use toricelli::config::{parse_flush_properties, ToricelliConfig};

#[test]
fn for_testing_puts_files_under_tmp() {
    let c = ToricelliConfig::for_testing("import");
    assert_eq!(c.dir, "/tmp/test_out/import/");
    assert_eq!(c.db, "/tmp/test_out/import/main.db");
    assert_eq!(c.org_roam_db, "./testdata/org_roam.db");
    assert!(c.flush_properties.is_empty());
}

#[test]
fn defaults_live_under_home() {
    let c = ToricelliConfig::under_home("/home/u");
    assert_eq!(c.dir, "/home/u/.toricelli/");
    assert_eq!(c.db, "/home/u/.toricelli/main.db");
    assert_eq!(c.org_roam_db, "/home/u/.emacs.d/org-roam.db");
    assert!(c.flush_properties.is_empty());
}

#[test]
fn environment_values_replace_defaults() {
    let c = ToricelliConfig::from_env_values("/home/u", Some("/data/t".to_string()), None, None, Some(" score, mtimes ,stability".to_string()));
    assert_eq!(c.dir, "/data/t");
    assert_eq!(c.db, "/data/t/main.db");
    assert_eq!(c.org_roam_db, "/home/u/.emacs.d/org-roam.db");
    assert_eq!(c.flush_properties, vec!["SCORE", "MTIMES", "STABILITY"]);

    let c = ToricelliConfig::from_env_values("/home/u/", None, Some("/x.db".to_string()), Some("/r.db".to_string()), None);
    assert_eq!(c.dir, "/home/u/.toricelli/");
    assert_eq!(c.db, "/x.db");
    assert_eq!(c.org_roam_db, "/r.db");
    assert!(c.flush_properties.is_empty());
}

#[test]
fn flush_property_lists() {
    assert_eq!(parse_flush_properties("a,b"), vec!["A", "B"]);
    assert_eq!(parse_flush_properties(""), vec![""]);
    assert_eq!(parse_flush_properties("x,,y"), vec!["X", "", "Y"]);
}
