use shelf::codec::{from_text, to_text};
use shelf::store::{Item, Store};

fn store_of(pairs: &[(&str, &str)]) -> Store {
    let mut items = Vec::new();
    for (id, file) in pairs {
        items.push(Item { id: id.to_string(), file: file.to_string() });
    }
    Store { items }
}

fn assert_round_trips(store: &Store) {
    let text = to_text(store);
    let back = from_text(&text).expect("serialized text must parse");
    assert_eq!(shelf::ops::list(&back), shelf::ops::list(store));
    assert_eq!(back.items.len(), store.items.len());
}

#[test]
fn empty_store_serializes_to_brackets() {
    assert_eq!(to_text(&Store::new()), "[]".to_string());
}

#[test]
fn empty_text_parses_to_the_empty_store() {
    let store = from_text("[]").unwrap();
    assert!(store.items.is_empty());
}

#[test]
fn one_record_serializes_exactly() {
    let store = store_of(&[("doc", "/tmp/a.txt")]);
    assert_eq!(to_text(&store), "[(id:\"doc\",file:\"/tmp/a.txt\")]".to_string());
}

#[test]
fn two_records_serialize_with_a_comma() {
    let store = store_of(&[("a", "/one"), ("b", "/two")]);
    assert_eq!(
        to_text(&store),
        "[(id:\"a\",file:\"/one\"),(id:\"b\",file:\"/two\")]".to_string()
    );
}

#[test]
fn quotes_and_backslashes_are_escaped() {
    let store = store_of(&[("qu\"ote", "C:\\temp\\x")]);
    assert_eq!(
        to_text(&store),
        "[(id:\"qu\\\"ote\",file:\"C:\\\\temp\\\\x\")]".to_string()
    );
    assert_round_trips(&store);
}

#[test]
fn one_record_parses_back() {
    let store = from_text("[(id:\"doc\",file:\"/tmp/a.txt\")]").unwrap();
    assert_eq!(shelf::ops::list(&store), vec!["doc => /tmp/a.txt".to_string()]);
}

#[test]
fn round_trip_of_empty_one_and_many() {
    assert_round_trips(&Store::new());
    assert_round_trips(&store_of(&[("doc", "/tmp/a.txt")]));
    assert_round_trips(&store_of(&[
        ("a", "/one"),
        ("b", "/two"),
        ("c", "/three"),
        ("d", "/four"),
    ]));
}

#[test]
fn round_trip_of_spaces_and_unicode() {
    assert_round_trips(&store_of(&[
        ("my notes", "/home/üser/some dir/nötes.txt"),
        ("日記", "/tmp/日記.md"),
        ("emoji", "/tmp/🦀/file"),
    ]));
}

#[test]
fn round_trip_of_awkward_punctuation() {
    assert_round_trips(&store_of(&[
        ("com,ma", "/with,comma"),
        ("par(en)s", "/with)paren("),
        ("brack]et", "/with[bracket]"),
        ("id:\"q\"", "file:\"p\""),
        ("back\\slash", "\\\\server\\share"),
    ]));
}

#[test]
fn malformed_texts_are_rejected() {
    for text in [
        "",
        "garbage",
        "(id:\"a\",file:\"b\")",
        "[",
        "]",
        "[(id:\"a\",file:\"b\")",
        "[(id:\"a\")]",
        "[(id:\"a\",file:\"b\"))]",
        "[(id:\"a\",file:\"b\")]x",
        "[]x",
        "[,]",
        "[(id:\"a\",file:\"b\"),]",
        "[(id:\"a\\q\",file:\"b\")]",
        "[(id:\"a\",file:\"b\"]",
        "[(id:'a',file:'b')]",
    ] {
        assert!(from_text(text).is_err(), "{:?} should not parse", text);
    }
}

#[test]
fn parse_error_reports_its_message() {
    let err = from_text("nonsense").unwrap_err();
    assert_eq!(
        err.message(),
        "the backing file does not hold a valid store".to_string()
    );
}
