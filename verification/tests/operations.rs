use shelf::ops::{Commands, Effect, OpError, PathText};
use shelf::store::{Item, Store};

fn exact(path: &str) -> PathText {
    PathText::Exact(path.to_string())
}

fn lines(store: &Store) -> Vec<String> {
    shelf::ops::list(store)
}

#[test]
fn add_twice_lists_last_path() {
    let mut store = Store::new();
    shelf::ops::add(&mut store, "doc".to_string(), exact("/tmp/a.txt")).unwrap();
    shelf::ops::add(&mut store, "doc".to_string(), exact("/tmp/b.txt")).unwrap();
    assert_eq!(lines(&store), vec!["doc => /tmp/b.txt".to_string()]);
}

#[test]
fn list_of_empty_store_prints_nothing() {
    let store = Store::new();
    assert!(lines(&store).is_empty());
}

#[test]
fn remove_on_empty_store_is_a_noop() {
    let mut store = Store::new();
    shelf::ops::remove(&mut store, "ghost".to_string());
    assert!(store.items.is_empty());
    assert!(lines(&store).is_empty());
}

#[test]
fn adds_with_distinct_ids_keep_first_add_order() {
    let mut store = Store::new();
    shelf::ops::add(&mut store, "a".to_string(), exact("/one")).unwrap();
    shelf::ops::add(&mut store, "b".to_string(), exact("/two")).unwrap();
    shelf::ops::add(&mut store, "c".to_string(), exact("/three")).unwrap();
    assert_eq!(
        lines(&store),
        vec![
            "a => /one".to_string(),
            "b => /two".to_string(),
            "c => /three".to_string(),
        ]
    );
}

#[test]
fn updating_keeps_the_entry_position() {
    let mut store = Store::new();
    shelf::ops::add(&mut store, "a".to_string(), exact("/one")).unwrap();
    shelf::ops::add(&mut store, "b".to_string(), exact("/two")).unwrap();
    shelf::ops::add(&mut store, "a".to_string(), exact("/changed")).unwrap();
    assert_eq!(
        lines(&store),
        vec!["a => /changed".to_string(), "b => /two".to_string()]
    );
}

#[test]
fn remove_of_absent_id_keeps_the_store() {
    let mut store = Store::new();
    shelf::ops::add(&mut store, "a".to_string(), exact("/one")).unwrap();
    shelf::ops::add(&mut store, "b".to_string(), exact("/two")).unwrap();
    let before = lines(&store);
    shelf::ops::remove(&mut store, "missing".to_string());
    assert_eq!(lines(&store), before);
}

#[test]
fn remove_deletes_only_the_entry() {
    let mut store = Store::new();
    shelf::ops::add(&mut store, "a".to_string(), exact("/one")).unwrap();
    shelf::ops::add(&mut store, "b".to_string(), exact("/two")).unwrap();
    shelf::ops::add(&mut store, "c".to_string(), exact("/three")).unwrap();
    shelf::ops::remove(&mut store, "b".to_string());
    assert_eq!(
        lines(&store),
        vec!["a => /one".to_string(), "c => /three".to_string()]
    );
}

#[test]
fn remove_deletes_only_the_first_match_of_a_duplicate() {
    let store_items = vec![
        Item { id: "dup".to_string(), file: "/first".to_string() },
        Item { id: "other".to_string(), file: "/kept".to_string() },
        Item { id: "dup".to_string(), file: "/second".to_string() },
    ];
    let mut store = Store { items: store_items };
    shelf::ops::remove(&mut store, "dup".to_string());
    assert_eq!(
        lines(&store),
        vec!["other => /kept".to_string(), "dup => /second".to_string()]
    );
}

#[test]
fn open_of_absent_id_reports_not_found() {
    let store = Store::new();
    let r = shelf::ops::open(&store, "ghost".to_string());
    match r {
        Err(OpError::NotFound { id }) => {
            assert_eq!(id, "ghost");
            assert_eq!(
                OpError::NotFound { id }.message(),
                "ghost not found!".to_string()
            );
        }
        _ => panic!("expected a not-found error"),
    }
}

#[test]
fn open_hands_the_stored_path_back_unchanged() {
    let mut store = Store::new();
    shelf::ops::add(&mut store, "doc".to_string(), exact("/tmp/spaced path/ünïcode.txt")).unwrap();
    let path = shelf::ops::open(&store, "doc".to_string()).unwrap();
    assert_eq!(path, "/tmp/spaced path/ünïcode.txt");
}

#[test]
fn open_finds_the_first_match_of_a_duplicate() {
    let store = Store {
        items: vec![
            Item { id: "dup".to_string(), file: "/first".to_string() },
            Item { id: "dup".to_string(), file: "/second".to_string() },
        ],
    };
    let path = shelf::ops::open(&store, "dup".to_string()).unwrap();
    assert_eq!(path, "/first");
}

#[test]
fn appending_a_lossy_path_is_an_encoding_error() {
    let mut store = Store::new();
    let r = shelf::ops::add(
        &mut store,
        "bad".to_string(),
        PathText::Lossy("/tmp/lo\u{fffd}ssy".to_string()),
    );
    match r {
        Err(OpError::Encoding { path }) => {
            assert_eq!(path, "/tmp/lo\u{fffd}ssy");
            assert_eq!(
                OpError::Encoding { path }.message(),
                "file /tmp/lo\u{fffd}ssy contains non-unicode characters!".to_string()
            );
        }
        _ => panic!("expected an encoding error"),
    }
    assert!(store.items.is_empty());
}

#[test]
fn updating_with_a_lossy_path_succeeds() {
    let mut store = Store::new();
    shelf::ops::add(&mut store, "doc".to_string(), exact("/tmp/a.txt")).unwrap();
    shelf::ops::add(
        &mut store,
        "doc".to_string(),
        PathText::Lossy("/tmp/lo\u{fffd}ssy".to_string()),
    )
    .unwrap();
    assert_eq!(lines(&store), vec!["doc => /tmp/lo\u{fffd}ssy".to_string()]);
}

#[test]
fn dispatch_add_and_remove_ask_for_persistence() {
    let mut store = Store::new();
    let cmd = Commands::Add { id: "doc".to_string(), file: exact("/tmp/a.txt") };
    assert!(matches!(shelf::ops::dispatch(&mut store, cmd), Ok(Effect::Persist)));
    assert_eq!(lines(&store), vec!["doc => /tmp/a.txt".to_string()]);
    let cmd = Commands::Remove { id: "doc".to_string() };
    assert!(matches!(shelf::ops::dispatch(&mut store, cmd), Ok(Effect::Persist)));
    assert!(store.items.is_empty());
}

#[test]
fn dispatch_open_asks_for_a_launch() {
    let mut store = Store::new();
    shelf::ops::add(&mut store, "doc".to_string(), exact("/tmp/a.txt")).unwrap();
    match shelf::ops::dispatch(&mut store, Commands::Open { id: "doc".to_string() }) {
        Ok(Effect::Launch(path)) => assert_eq!(path, "/tmp/a.txt"),
        _ => panic!("expected a launch"),
    }
    match shelf::ops::dispatch(&mut store, Commands::Open { id: "nope".to_string() }) {
        Err(OpError::NotFound { id }) => assert_eq!(id, "nope"),
        _ => panic!("expected a not-found error"),
    }
}

#[test]
fn dispatch_list_asks_for_printing() {
    let mut store = Store::new();
    shelf::ops::add(&mut store, "doc".to_string(), exact("/tmp/a.txt")).unwrap();
    match shelf::ops::dispatch(&mut store, Commands::List) {
        Ok(Effect::Print(out)) => assert_eq!(out, vec!["doc => /tmp/a.txt".to_string()]),
        _ => panic!("expected printed lines"),
    }
}
