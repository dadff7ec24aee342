use toricelli::org_roam_db::{
    note_from_row, org_roam_links, notes_from_rows, parse_date, ElispValue, OrgRoamError,
    OrgRoamProperties, PropertyValue,
};
use toricelli::types::Timestamp;

const MAR_1: Timestamp = Timestamp { secs: 1_709_283_600, nanos: 0 };
const DEC_25: Timestamp = Timestamp { secs: 1_703_471_400, nanos: 0 };

fn value(text: &str, items: Option<Vec<Option<&str>>>) -> ElispValue {
    ElispValue {
        text: text.to_string(),
        items: items.map(|xs| xs.into_iter().map(|x| x.map(|s| s.to_string())).collect()),
    }
}

#[test]
fn parse_date_reads_org_timestamps_in_ist() {
    assert_eq!(parse_date("[2024-03-01 Fri 14:30]"), Some(MAR_1));
    assert_eq!(parse_date("[2023-12-25 Mon 08:00]"), Some(DEC_25));
    assert_eq!(parse_date("2024-03-01"), None);
    assert_eq!(parse_date(""), None);
}

#[test]
fn single_timestamp_is_a_one_date_list() {
    let v = PropertyValue::from_elisp(&value("\"[2024-03-01 Fri 14:30]\"", None));
    assert!(matches!(v, PropertyValue::DateList(ref d) if d == &vec![MAR_1]));
}

#[test]
fn plain_text_is_text_without_quotes() {
    let v = PropertyValue::from_elisp(&value("\"notes\"", None));
    assert!(matches!(v, PropertyValue::Text(ref s) if s == "notes"));
}

#[test]
fn comma_separated_text_is_a_list() {
    let v = PropertyValue::from_elisp(&value("\"a,\"b\",c\"", None));
    assert!(matches!(v, PropertyValue::StringList(ref l) if l == &vec!["a".to_string(), "b".to_string(), "c".to_string()]));
    let v = PropertyValue::from_elisp(&value("\"[2024-03-01 Fri 14:30],[2023-12-25 Mon 08:00]\"", None));
    assert!(matches!(v, PropertyValue::DateList(ref d) if d == &vec![MAR_1, DEC_25]));
}

#[test]
fn list_keeps_only_string_elements() {
    let v = PropertyValue::from_elisp(&value("(\"x\" 1 \"y\")", Some(vec![Some("x"), None, Some("\"y\"")])));
    assert!(matches!(v, PropertyValue::StringList(ref l) if l == &vec!["x".to_string(), "y".to_string()]));
    let v = PropertyValue::from_elisp(&value("nil", Some(vec![])));
    assert!(matches!(v, PropertyValue::DateList(ref d) if d.is_empty()));
}

#[test]
fn properties_read_from_elisp() {
    let text = "((\"ID\" . \"abc-1\") (\"MTIME\" . \"[2024-03-01 Fri 14:30]\") (\"TAGS\" \"a\" \"b\") (\"CATEGORY\" . notes))";
    let props = OrgRoamProperties::read(text).unwrap();
    assert_eq!(props.len(), 4);
    assert!(matches!(props.get("ID"), Some(PropertyValue::Text(s)) if s == "abc-1"));
    assert!(matches!(props.get("MTIME"), Some(PropertyValue::DateList(d)) if d == &vec![MAR_1]));
    assert!(matches!(props.get("TAGS"), Some(PropertyValue::StringList(l)) if l == &vec!["a".to_string(), "b".to_string()]));
    assert!(matches!(props.get("CATEGORY"), Some(PropertyValue::Text(s)) if s == "notes"));
    assert!(props.get("FILE").is_none());
}

#[test]
fn properties_of_unreadable_text() {
    assert!(OrgRoamProperties::read("((\"ID\" . ").is_none());
    assert!(OrgRoamProperties::read("\"just a string\"").is_none());
    assert_eq!(OrgRoamProperties::read("nil").unwrap().len(), 0);
}

#[test]
fn note_from_row_takes_mtimes() {
    let text = "((\"MTIME\" \"[2024-03-01 Fri 14:30]\" \"[2023-12-25 Mon 08:00]\"))";
    let note = note_from_row("n1".to_string(), text).unwrap().unwrap();
    assert_eq!(note.id.as_str(), "n1");
    assert_eq!(note.mtimes, vec![MAR_1, DEC_25]);
    assert!(note.file.is_none());
    assert_eq!(f64::from_bits(note.stability), 1.0);
    assert_eq!(f64::from_bits(note.score), 0.0);

    let none = note_from_row("n2".to_string(), "((\"ID\" . \"n2\"))").unwrap().unwrap();
    assert!(none.mtimes.is_empty());

    let bad = note_from_row("n3".to_string(), "((\"MTIME\" . \"yesterday\"))").unwrap();
    assert!(matches!(bad, Err(OrgRoamError::MtimeNotDates)));

    assert!(note_from_row("n4".to_string(), "((").is_none());
}

#[test]
fn notes_from_rows_stops_at_the_first_bad_row() {
    let good = ("a".to_string(), "((\"MTIME\" . \"[2024-03-01 Fri 14:30]\"))".to_string());
    let bad_mtime = ("b".to_string(), "((\"MTIME\" . \"soon\"))".to_string());
    let unreadable = ("c".to_string(), "(((".to_string());

    let ok = notes_from_rows(vec![good.clone(), ("d".to_string(), "nil".to_string())]).unwrap().unwrap();
    assert_eq!(ok.len(), 2);
    assert_eq!(ok[0].0.as_str(), "a");
    assert_eq!(ok[0].1.mtimes, vec![MAR_1]);
    assert_eq!(ok[1].0.as_str(), "d");

    let r = notes_from_rows(vec![good.clone(), bad_mtime.clone(), unreadable.clone()]);
    assert!(matches!(r, Some(Err(OrgRoamError::MtimeNotDates))));
    let r = notes_from_rows(vec![good, unreadable, bad_mtime]);
    assert!(r.is_none());
}

#[test]
fn org_roam_links_unquote_and_count_repeats() {
    let rows = vec![
        ("\"a\"".to_string(), "\"b\"".to_string()),
        ("b".to_string(), "\"c\"".to_string()),
        ("a".to_string(), "b".to_string()),
    ];
    let links = org_roam_links(&rows);
    assert_eq!(links.len(), 2);
    assert_eq!((links[0].0.as_str(), links[0].1.as_str(), links[0].2), ("a", "b", 2));
    assert_eq!((links[1].0.as_str(), links[1].1.as_str(), links[1].2), ("b", "c", 1));
    assert!(org_roam_links(&Vec::new()).is_empty());
}
