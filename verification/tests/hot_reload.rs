use std::path::{Component, Path};
use std::sync::Arc;

use noesis_bridge::event::{is_reload_trigger, EventKind, EventPath, WatchEvent, WatchMessage};
use noesis_bridge::hot_reload::{poll_hot_reload, NoesisHotReload, PendingWatch, WatchStep};
use noesis_bridge::path::{FilePath, PathPart};
use noesis_bridge::xaml::{any_read_succeeded, refresh_registry, FileRead, XamlRegistry};
use notify::event::{CreateKind, MetadataKind, ModifyKind};

fn kind_of(kind: notify::EventKind) -> EventKind {
    match kind {
        notify::EventKind::Any => EventKind::Any,
        notify::EventKind::Access(_) => EventKind::Access,
        notify::EventKind::Create(_) => EventKind::Create,
        notify::EventKind::Modify(_) => EventKind::Modify,
        notify::EventKind::Remove(_) => EventKind::Remove,
        notify::EventKind::Other => EventKind::Other,
    }
}

fn file(path: &str) -> FilePath {
    let parts = Path::new(path)
        .components()
        .map(|part| match part {
            Component::Prefix(p) => PathPart::Prefix(p.as_os_str().as_encoded_bytes().to_vec()),
            Component::RootDir => PathPart::RootDir,
            Component::CurDir => PathPart::CurDir,
            Component::ParentDir => PathPart::ParentDir,
            Component::Normal(name) => PathPart::Normal(name.as_encoded_bytes().to_vec()),
        })
        .collect();
    FilePath { parts }
}

fn at(path: &str) -> EventPath {
    EventPath { raw: file(path), canonical: Some(file(path)) }
}

fn event(kind: EventKind, paths: Vec<EventPath>) -> WatchMessage {
    WatchMessage::Event(WatchEvent { kind, paths })
}

fn pending(step: WatchStep) -> PendingWatch {
    match step {
        WatchStep::StartDirWatch(pending) => pending,
        _ => panic!("no directory watch was asked for"),
    }
}

/// Watches `path` for `uri`, with a directory watch that always starts.
fn watch(hot: &mut NoesisHotReload, uri: &str, path: &str) {
    match hot.watch(uri.to_string(), Some(file(path))) {
        WatchStep::StartDirWatch(pending) => assert!(hot.finish_watch(pending, true)),
        step => assert!(matches!(step, WatchStep::Recorded)),
    }
}

#[test]
fn reload_triggers_on_data_changes_only() {
    assert!(is_reload_trigger(&kind_of(notify::EventKind::Modify(ModifyKind::Any))));
    assert!(is_reload_trigger(&kind_of(notify::EventKind::Create(CreateKind::File))));
    assert!(is_reload_trigger(&kind_of(notify::EventKind::Any)));
    assert!(!is_reload_trigger(&kind_of(notify::EventKind::Access(
        notify::event::AccessKind::Read
    ))));
    assert!(!is_reload_trigger(&kind_of(notify::EventKind::Remove(
        notify::event::RemoveKind::File
    ))));
}

#[test]
fn metadata_changes_trigger_and_watcher_events_do_not() {
    assert!(is_reload_trigger(&kind_of(notify::EventKind::Modify(ModifyKind::Metadata(
        MetadataKind::Permissions
    )))));
    assert!(!is_reload_trigger(&kind_of(notify::EventKind::Other)));
}

#[test]
fn watch_records_canonical_path_and_dedupes_dirs() {
    let dir = format!("/tmp/noesis_hot_reload_{}", 4711);
    let a = format!("{dir}/a.xaml");
    let b = format!("{dir}/b.xaml");

    let mut hot = NoesisHotReload::new();
    let first = pending(hot.watch("a.xaml".to_string(), Some(file(&a))));
    assert_eq!(first.dir(), &file(&dir));
    assert!(hot.finish_watch(first, true));
    assert!(matches!(
        hot.watch("b.xaml".to_string(), Some(file(&b))),
        WatchStep::Recorded
    ));

    // Both files mapped to their URIs, keyed by canonical path.
    assert_eq!(hot.files().len(), 2);
    assert_eq!(hot.files().lookup(&file(&a)), Some(&"a.xaml".to_string()));
    // Two files in one directory collapse to a single directory watch.
    assert_eq!(hot.dirs().len(), 1);
}

#[test]
fn missing_file_is_skipped_not_watched() {
    // "/definitely/not/here/ghost.xaml" does not resolve to anything.
    let mut hot = NoesisHotReload::new();
    let step = hot.watch("ghost.xaml".to_string(), None);
    assert!(matches!(step, WatchStep::Unresolved));
    assert!(hot.files().is_empty());
    assert!(hot.dirs().is_empty());
}

#[test]
fn edit_on_disk_updates_registry() {
    let live = format!("/tmp/noesis_hot_e2e_{}/live.xaml", 4711);
    let mut registry = XamlRegistry::default();
    let mut hot = NoesisHotReload::new();
    registry.insert(
        "live.xaml".to_string(),
        Arc::new(b"<Grid Background=\"Red\"/>".to_vec()),
    );
    watch(&mut hot, "live.xaml", &live);

    let messages = vec![event(EventKind::Modify, vec![at(&live)])];
    let stale = poll_hot_reload(Some(&hot), &messages);
    let mut reads = Vec::new();
    for (uri, path) in stale.entries() {
        assert_eq!(path, &file(&live));
        reads.push(FileRead {
            uri: uri.clone(),
            bytes: Some(b"<Grid Background=\"Blue\"/>".to_vec()),
        });
    }
    assert!(any_read_succeeded(&reads));
    refresh_registry(&mut registry, reads);

    let reloaded = registry.get("live.xaml").map(|b| b.as_slice())
        == Some(b"<Grid Background=\"Blue\"/>".as_slice());
    assert!(reloaded, "registry never picked up the on-disk edit");
}

#[test]
fn root_has_no_parent_and_is_not_watched() {
    let mut hot = NoesisHotReload::new();
    assert!(matches!(
        hot.watch("root.xaml".to_string(), Some(file("/"))),
        WatchStep::NoParent
    ));
    assert!(hot.files().is_empty());
    assert!(hot.dirs().is_empty());
}

#[test]
fn registering_a_file_twice_is_harmless() {
    let mut hot = NoesisHotReload::new();
    watch(&mut hot, "a.xaml", "/ui/a.xaml");
    watch(&mut hot, "a.xaml", "/ui/a.xaml");
    assert_eq!(hot.files().len(), 1);
    assert_eq!(hot.dirs().len(), 1);
    watch(&mut hot, "other.xaml", "/ui/a.xaml");
    assert_eq!(hot.files().len(), 1);
    assert_eq!(
        hot.files().lookup(&file("/ui/a.xaml")),
        Some(&"other.xaml".to_string())
    );
}

#[test]
fn failed_directory_watch_leaves_no_trace_and_is_tried_again() {
    let mut hot = NoesisHotReload::new();
    let first = pending(hot.watch("a.xaml".to_string(), Some(file("/ui/a.xaml"))));
    assert!(!hot.finish_watch(first, false));
    assert!(hot.files().is_empty());
    assert!(hot.dirs().is_empty());
    let again = pending(hot.watch("a.xaml".to_string(), Some(file("/ui/a.xaml"))));
    assert_eq!(again.dir(), &file("/ui"));
    assert!(hot.finish_watch(again, true));
    assert_eq!(hot.files().len(), 1);
    assert_eq!(hot.dirs().len(), 1);
}

#[test]
fn every_watched_directory_holds_a_registered_file() {
    let mut hot = NoesisHotReload::new();
    for path in ["/ui/a.xaml", "/ui/sub/b.xaml", "/themes/c.xaml", "/ui/d.xaml"] {
        watch(&mut hot, path, path);
    }
    assert_eq!(hot.files().len(), 4);
    assert_eq!(hot.dirs().len(), 3);
    for (path, _) in hot.files().entries() {
        assert!(hot.dirs().lookup(&path.parent().unwrap()).is_some());
    }
}

#[test]
fn burst_of_events_makes_one_stale_entry() {
    let mut hot = NoesisHotReload::new();
    watch(&mut hot, "a.xaml", "/ui/a.xaml");
    let once = vec![event(EventKind::Create, vec![at("/ui/a.xaml"), at("/ui/a.xaml")])];
    let burst = vec![
        event(EventKind::Create, vec![at("/ui/a.xaml"), at("/ui/a.xaml")]),
        event(EventKind::Modify, vec![at("/ui/a.xaml")]),
        event(EventKind::Any, vec![at("/ui/a.xaml")]),
    ];
    let expected = vec![("a.xaml".to_string(), file("/ui/a.xaml"))];
    assert_eq!(poll_hot_reload(Some(&hot), &once).entries(), &expected);
    assert_eq!(poll_hot_reload(Some(&hot), &burst).entries(), &expected);
}

#[test]
fn unrelated_messages_make_nothing_stale() {
    let mut hot = NoesisHotReload::new();
    watch(&mut hot, "a.xaml", "/ui/a.xaml");
    let messages = vec![
        WatchMessage::Error,
        event(EventKind::Access, vec![at("/ui/a.xaml")]),
        event(EventKind::Remove, vec![at("/ui/a.xaml")]),
        event(EventKind::Other, vec![at("/ui/a.xaml")]),
        event(EventKind::Modify, vec![at("/ui/stranger.xaml"), at("/ui")]),
        event(EventKind::Modify, vec![]),
    ];
    assert!(poll_hot_reload(Some(&hot), &messages).is_empty());
}

#[test]
fn no_watcher_means_nothing_is_stale() {
    let messages = vec![event(EventKind::Modify, vec![at("/ui/a.xaml")])];
    assert!(poll_hot_reload(None, &messages).is_empty());
}

#[test]
fn last_changed_file_of_a_shared_uri_is_the_one_to_read() {
    let mut hot = NoesisHotReload::new();
    watch(&mut hot, "shared.xaml", "/ui/a.xaml");
    watch(&mut hot, "shared.xaml", "/ui/b.xaml");
    let messages = vec![
        event(EventKind::Modify, vec![at("/ui/b.xaml")]),
        event(EventKind::Modify, vec![at("/ui/a.xaml")]),
    ];
    assert_eq!(
        poll_hot_reload(Some(&hot), &messages).entries(),
        &vec![("shared.xaml".to_string(), file("/ui/a.xaml"))]
    );
}

#[test]
fn canonical_path_counts_and_the_raw_one_stands_in_for_it() {
    let mut hot = NoesisHotReload::new();
    watch(&mut hot, "a.xaml", "/ui/a.xaml");
    let linked = vec![event(
        EventKind::Modify,
        vec![EventPath { raw: file("/link/a.xaml"), canonical: Some(file("/ui/a.xaml")) }],
    )];
    assert_eq!(
        poll_hot_reload(Some(&hot), &linked).get("a.xaml"),
        Some(&file("/ui/a.xaml"))
    );
    let gone = vec![event(
        EventKind::Modify,
        vec![EventPath { raw: file("/ui//./a.xaml"), canonical: None }],
    )];
    assert_eq!(
        poll_hot_reload(Some(&hot), &gone).get("a.xaml"),
        Some(&file("/ui/a.xaml"))
    );
    let elsewhere = vec![event(
        EventKind::Modify,
        vec![EventPath { raw: file("/ui/a.xaml"), canonical: Some(file("/real/a.xaml")) }],
    )];
    assert!(poll_hot_reload(Some(&hot), &elsewhere).is_empty());
}

#[test]
fn failed_read_keeps_the_old_bytes() {
    let mut registry = XamlRegistry::new();
    registry.insert("a.xaml".to_string(), Arc::new(b"old".to_vec()));
    let failed = vec![FileRead { uri: "a.xaml".to_string(), bytes: None }];
    assert!(!any_read_succeeded(&failed));
    refresh_registry(&mut registry, failed);
    assert_eq!(registry.get("a.xaml").map(|b| b.as_slice()), Some(b"old".as_slice()));
    assert!(registry.get("b.xaml").is_none());
}

#[test]
fn rereading_the_same_bytes_still_inserts_them_anew() {
    let mut registry = XamlRegistry::new();
    let before = Arc::new(b"same".to_vec());
    registry.insert("a.xaml".to_string(), Arc::clone(&before));
    assert!(Arc::ptr_eq(registry.get("a.xaml").unwrap(), &before));
    refresh_registry(
        &mut registry,
        vec![FileRead { uri: "a.xaml".to_string(), bytes: Some(b"same".to_vec()) }],
    );
    let after = registry.get("a.xaml").unwrap();
    assert_eq!(after.as_slice(), b"same".as_slice());
    assert!(!Arc::ptr_eq(after, &before));
}

#[test]
fn refresh_leaves_other_entries_the_same_allocation() {
    let mut registry = XamlRegistry::new();
    let kept = Arc::new(b"kept".to_vec());
    registry.insert("kept.xaml".to_string(), Arc::clone(&kept));
    refresh_registry(
        &mut registry,
        vec![
            FileRead { uri: "a.xaml".to_string(), bytes: Some(b"new".to_vec()) },
            FileRead { uri: "kept.xaml".to_string(), bytes: None },
        ],
    );
    assert!(Arc::ptr_eq(registry.get("kept.xaml").unwrap(), &kept));
}

#[test]
fn trailing_event_makes_a_failed_read_good() {
    let mut hot = NoesisHotReload::new();
    watch(&mut hot, "a.xaml", "/ui/a.xaml");
    let mut registry = XamlRegistry::new();
    registry.insert("a.xaml".to_string(), Arc::new(b"old".to_vec()));
    for (bytes, expected) in [(None, b"old"), (Some(b"new".to_vec()), b"new")] {
        let messages = vec![event(EventKind::Modify, vec![at("/ui/a.xaml")])];
        let stale = poll_hot_reload(Some(&hot), &messages);
        assert_eq!(stale.len(), 1);
        refresh_registry(&mut registry, vec![FileRead { uri: "a.xaml".to_string(), bytes }]);
        assert_eq!(
            registry.get("a.xaml").map(|b| b.as_slice()),
            Some(expected.as_slice())
        );
    }
}

#[test]
fn order_and_grouping_of_changes_do_not_matter() {
    let mut hot = NoesisHotReload::new();
    watch(&mut hot, "a.xaml", "/ui/a.xaml");
    watch(&mut hot, "b.xaml", "/ui/b.xaml");
    let together = vec![event(
        EventKind::Modify,
        vec![at("/ui/a.xaml"), at("/ui/b.xaml"), at("/ui/a.xaml")],
    )];
    let apart = vec![
        event(EventKind::Create, vec![at("/ui/b.xaml")]),
        event(EventKind::Modify, vec![at("/ui/x.xaml"), at("/ui/a.xaml")]),
    ];
    for messages in [together, apart] {
        let stale = poll_hot_reload(Some(&hot), &messages);
        assert_eq!(stale.len(), 2);
        assert_eq!(stale.get("a.xaml"), Some(&file("/ui/a.xaml")));
        assert_eq!(stale.get("b.xaml"), Some(&file("/ui/b.xaml")));
    }
}

#[test]
fn read_order_does_not_matter() {
    let read = |uri: &str, bytes: &[u8]| FileRead {
        uri: uri.to_string(),
        bytes: Some(bytes.to_vec()),
    };
    let mut one = XamlRegistry::new();
    let mut two = XamlRegistry::new();
    one.insert("c".to_string(), Arc::new(b"kept".to_vec()));
    two.insert("c".to_string(), Arc::new(b"kept".to_vec()));
    refresh_registry(&mut one, vec![read("a", b"1"), read("b", b"2")]);
    refresh_registry(&mut two, vec![read("b", b"2"), read("a", b"1")]);
    for (uri, bytes) in [("a", b"1".as_slice()), ("b", b"2"), ("c", b"kept")] {
        assert_eq!(one.get(uri).map(|b| b.as_slice()), Some(bytes));
        assert_eq!(two.get(uri).map(|b| b.as_slice()), Some(bytes));
    }
}

#[test]
fn parent_drops_the_last_component() {
    for path in ["/ui/a.xaml", "/ui", "ui/a.xaml", "a.xaml", "..", "./a", "/", ""] {
        let expected = Path::new(path).parent().map(|p| file(p.to_str().unwrap()));
        assert_eq!(file(path).parent(), expected);
    }
    let drive = FilePath { parts: vec![PathPart::Prefix(b"C:".to_vec())] };
    assert_eq!(drive.parent(), None);
}
