use toricelli::org_file::{
    format_property_drawer, merge_properties, parse_property_drawer, update_properties,
    update_properties_with_nodes, OrgFileError, OrgNode, OrgNodeKind,
};
use toricelli::props::PropertyMap;

fn table(entries: &[(&str, &str)]) -> PropertyMap {
    let mut m = PropertyMap::new();
    for (k, v) in entries {
        m.insert(k.to_string(), v.to_string());
    }
    m
}

#[test]
fn test_parse_property_drawer() {
    let drawer = ":PROPERTIES:\n:ID: abc-123\n:STABILITY: 1.5\n:END:";
    let props = parse_property_drawer(drawer);
    assert_eq!(props.get("ID"), Some(&"abc-123".to_string()));
    assert_eq!(props.get("STABILITY"), Some(&"1.5".to_string()));
}

#[test]
fn test_format_property_drawer() {
    let mut props = PropertyMap::new();
    props.insert("SCORE".to_string(), "0.85".to_string());
    props.insert("ID".to_string(), "abc-123".to_string());
    let drawer = format_property_drawer(&props);
    assert!(drawer.starts_with(":PROPERTIES:"));
    assert!(drawer.contains(":ID: abc-123"));
    assert!(drawer.contains(":SCORE: 0.85"));
    assert!(drawer.ends_with(":END:"));
}

#[test]
fn test_update_properties_existing_drawer() {
    let content = ":PROPERTIES:\n:ID: abc-123\n:END:\n\n* Headline";
    let mut updates = PropertyMap::new();
    updates.insert("SCORE".to_string(), "0.85".to_string());
    let result = update_properties(content, &updates).unwrap();
    assert!(result.contains(":ID: abc-123"));
    assert!(result.contains(":SCORE: 0.85"));
    assert!(result.contains("* Headline"));
}

#[test]
fn test_update_properties_no_drawer() {
    let content = "* Headline\nSome content";
    let mut updates = PropertyMap::new();
    updates.insert("SCORE".to_string(), "0.85".to_string());
    let result = update_properties(content, &updates).unwrap();
    assert!(result.starts_with(":PROPERTIES:"));
    assert!(result.contains(":SCORE: 0.85"));
    assert!(result.contains("* Headline"));
}

#[test]
fn parse_skips_malformed_lines_and_uppercases_keys() {
    let drawer = ":PROPERTIES:\n  :mtime:   [2024-01-01]  \r\nno colon here\n::empty key\n:score: 1\n:SCORE: 2\n:END:\n";
    let props = parse_property_drawer(drawer);
    assert_eq!(props.len(), 2);
    assert_eq!(props.get("MTIME"), Some(&"[2024-01-01]".to_string()));
    assert_eq!(props.get("SCORE"), Some(&"2".to_string()));
    assert_eq!(props.get("mtime"), None);
}

#[test]
fn parse_value_keeps_later_colons() {
    let props = parse_property_drawer(":URL: https://example.org/a:b\n");
    assert_eq!(props.get("URL"), Some(&"https://example.org/a:b".to_string()));
}

#[test]
fn format_puts_id_first_then_sorted_keys() {
    let props = table(&[("ZED", "z"), ("ALPHA", "a"), ("ID", "x"), ("BETA", "")]);
    let drawer = format_property_drawer(&props);
    assert_eq!(drawer, ":PROPERTIES:\n:ID: x\n:ALPHA: a\n:BETA: \n:ZED: z\n:END:");
}

#[test]
fn format_empty_table() {
    let drawer = format_property_drawer(&PropertyMap::new());
    assert_eq!(drawer, ":PROPERTIES:\n:END:");
}

#[test]
fn parse_of_format_gives_back_the_table() {
    let props = table(&[("ID", "abc"), ("SCORE", "0.5"), ("MTIME", "[2024-03-01 Fri 14:30]")]);
    let back = parse_property_drawer(&format_property_drawer(&props));
    assert_eq!(back.len(), 3);
    assert_eq!(back.get("ID"), Some(&"abc".to_string()));
    assert_eq!(back.get("SCORE"), Some(&"0.5".to_string()));
    assert_eq!(back.get("MTIME"), Some(&"[2024-03-01 Fri 14:30]".to_string()));
}

#[test]
fn merge_prefers_updates() {
    let merged = merge_properties(table(&[("A", "1"), ("B", "2")]), table(&[("B", "3"), ("C", "4")]));
    assert_eq!(merged.len(), 3);
    assert_eq!(merged.get("A"), Some(&"1".to_string()));
    assert_eq!(merged.get("B"), Some(&"3".to_string()));
    assert_eq!(merged.get("C"), Some(&"4".to_string()));
}

#[test]
fn update_with_no_updates_returns_content_unchanged() {
    let content = "* Headline\n:PROPERTIES:\n:X: y\n:END:\n";
    assert_eq!(update_properties(content, &PropertyMap::new()), Ok(content.to_string()));
}

#[test]
fn update_without_drawer_prepends_one() {
    let content = "* Headline\nSome content";
    let result = update_properties(content, &table(&[("SCORE", "0.85")])).unwrap();
    assert_eq!(result, ":PROPERTIES:\n:SCORE: 0.85\n:END:\n* Headline\nSome content");
}

#[test]
fn update_rewrites_the_file_drawer_in_place() {
    let content = ":PROPERTIES:\n:id: abc\n:SCORE: 1\n:END:\n#+title: T\nBody";
    let result = update_properties(content, &table(&[("SCORE", "0.85")])).unwrap();
    assert!(result.starts_with(":PROPERTIES:\n:ID: abc\n:SCORE: 0.85\n:END:"));
    assert!(result.contains("#+title: T"));
    assert!(result.ends_with("Body"));
    assert!(!result.contains(":SCORE: 1\n"));
}

#[test]
fn update_ignores_drawers_under_headlines() {
    let content = "* Headline\n:PROPERTIES:\n:ID: h1\n:END:\n";
    let result = update_properties(content, &table(&[("SCORE", "0.5")])).unwrap();
    assert!(result.starts_with(":PROPERTIES:\n:SCORE: 0.5\n:END:\n* Headline"));
    assert!(result.contains(":ID: h1"));
}

#[test]
fn updated_drawer_reads_back_as_merged_table() {
    let content = ":PROPERTIES:\n:ID: abc\n:SCORE: 1\n:END:\nBody";
    let result = update_properties(content, &table(&[("SCORE", "0.85"), ("MTIME", "x")])).unwrap();
    let end = result.find(":END:").unwrap() + ":END:".len();
    let back = parse_property_drawer(&result[..end]);
    assert_eq!(back.len(), 3);
    assert_eq!(back.get("ID"), Some(&"abc".to_string()));
    assert_eq!(back.get("SCORE"), Some(&"0.85".to_string()));
    assert_eq!(back.get("MTIME"), Some(&"x".to_string()));
    assert!(result.starts_with(":PROPERTIES:\n:ID: abc\n:MTIME: x\n:SCORE: 0.85\n:END:"));
}

#[test]
fn update_with_given_nodes() {
    let content = "#+x\n:PROPERTIES:\n:A: 1\n:END:\nrest";
    let drawer = OrgNode { kind: OrgNodeKind::PropertyDrawer, start: 4, end: 28 };
    let other = OrgNode { kind: OrgNodeKind::Other, start: 0, end: 4 };
    let result = update_properties_with_nodes(content, &vec![other, drawer], &table(&[("B", "2")])).unwrap();
    assert_eq!(result, "#+x\n:PROPERTIES:\n:A: 1\n:B: 2\n:END:\nrest");

    let headline = OrgNode { kind: OrgNodeKind::Headline, start: 0, end: 4 };
    let result = update_properties_with_nodes(content, &vec![headline, drawer], &table(&[("B", "2")])).unwrap();
    assert!(result.starts_with(":PROPERTIES:\n:B: 2\n:END:\n#+x"));

    let outside = OrgNode { kind: OrgNodeKind::PropertyDrawer, start: 4, end: 400 };
    assert_eq!(
        update_properties_with_nodes(content, &vec![outside], &table(&[("B", "2")])),
        Err(OrgFileError::DrawerOutOfBounds)
    );
}
