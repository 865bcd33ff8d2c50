use std::collections::HashMap;

use assembly_pack::crc::calculate_crc;
use pack_unpack::archive::{
    archive_location, find_entry, run_archive, short_key, Action, ArchiveAccess, DirEntry,
    LogEvent,
};
use pack_unpack::filter::Filter;
use pack_unpack::plan::{plan, ManifestEntry, PackIndex, Request};

fn crc(path: &str) -> u32 {
    calculate_crc(path.as_bytes())
}

fn req(path: &str, size: u32, hash: u128) -> Request {
    Request { crc: crc(path), path: path.to_string(), filesize: size, hash }
}

fn dir(entries: &[(u32, u32)]) -> Vec<DirEntry> {
    let mut v: Vec<DirEntry> = entries
        .iter()
        .map(|&(c, f)| DirEntry { crc: c, is_compressed: f })
        .collect();
    v.sort_by_key(|e| e.crc);
    v
}

#[test]
fn short_key_strips_the_pack_prefix() {
    assert_eq!(short_key("client\\res\\pack\\frontend.pk"), "frontend.pk");
    assert_eq!(short_key("other\\place.pk"), "other\\place.pk");
    assert_eq!(short_key(""), "");
}

#[test]
fn archive_location_turns_backslashes_into_slashes() {
    assert_eq!(
        archive_location("/home/me/client", "client\\res\\pack\\frontend.pk"),
        "/home/me/client/client/res/pack/frontend.pk"
    );
    assert_eq!(archive_location("root", "plain.pk"), "root/plain.pk");
}

#[test]
fn find_entry_locates_present_checksums() {
    let entries = dir(&[(10, 0), (20, 1), (30, 0), (40, 1)]);
    for e in &entries {
        let i = find_entry(&entries, e.crc).expect("present checksum must be found");
        assert_eq!(entries[i].crc, e.crc);
    }
    assert!(find_entry(&entries, 25).is_none());
    assert!(find_entry(&entries, 5).is_none());
    assert!(find_entry(&entries, 45).is_none());
    let empty: Vec<DirEntry> = Vec::new();
    assert!(find_entry(&empty, 10).is_none());
}

#[test]
fn dry_run_only_reports_destinations_in_order() {
    let files = vec![req("a/b.txt", 10, 1), req("c.txt", 5, 2)];
    let entries = dir(&[(crc("a/b.txt"), 0), (crc("c.txt"), 0)]);
    let r = run_archive(
        1,
        1,
        "x.pk",
        &files,
        ArchiveAccess::Opened { magic_ok: true, entries },
        true,
        "out",
    );
    assert!(!r.failed);
    assert_eq!(r.actions.len(), 2);
    match &r.actions[0] {
        Action::Report { dest } => assert_eq!(dest, "out/a/b.txt"),
        _ => panic!("dry run must not write"),
    }
    match &r.actions[1] {
        Action::Report { dest } => assert_eq!(dest, "out/c.txt"),
        _ => panic!("dry run must not write"),
    }
}

#[test]
fn missing_entry_warns_and_the_rest_continues() {
    let files = vec![req("one.txt", 1, 1), req("gone.txt", 2, 2), req("two.txt", 3, 3)];
    let entries = dir(&[(crc("one.txt"), 0), (crc("two.txt"), 0)]);
    let r = run_archive(
        1,
        1,
        "x.pk",
        &files,
        ArchiveAccess::Opened { magic_ok: true, entries },
        false,
        "out",
    );
    assert!(!r.failed);
    // Exactly one warning, naming the missing path and the archive.
    let misses: Vec<&LogEvent> = r
        .events
        .iter()
        .filter(|e| matches!(e, LogEvent::WarnMissing { .. }))
        .collect();
    assert_eq!(misses.len(), 1);
    match misses[0] {
        LogEvent::WarnMissing { path, short_key } => {
            assert_eq!(path, "gone.txt");
            assert_eq!(short_key, "x.pk");
        }
        _ => unreachable!(),
    }
    // The two present requests still get their writes, in order.
    assert_eq!(r.actions.len(), 2);
    match &r.actions[0] {
        Action::Write { dest, .. } => assert_eq!(dest, "out/one.txt"),
        _ => panic!("expected a write"),
    }
    match &r.actions[1] {
        Action::Write { dest, .. } => assert_eq!(dest, "out/two.txt"),
        _ => panic!("expected a write"),
    }
}

#[test]
fn unopenable_archive_warns_once_and_extracts_nothing() {
    let files = vec![req("a.txt", 1, 1)];
    let r = run_archive(2, 3, "client\\res\\pack\\x.pk", &files, ArchiveAccess::Unopenable, false, "out");
    assert!(!r.failed);
    assert!(r.actions.is_empty());
    assert_eq!(r.events.len(), 1);
    match &r.events[0] {
        LogEvent::WarnOpenFailed { short_key } => assert_eq!(short_key, "x.pk"),
        _ => panic!("expected exactly one open-failure warning"),
    }
}

#[test]
fn header_error_fails_the_batch_without_actions() {
    let files = vec![req("a.txt", 1, 1)];
    let r = run_archive(1, 1, "x.pk", &files, ArchiveAccess::HeaderError { magic_ok: false }, false, "out");
    assert!(r.failed);
    assert!(r.actions.is_empty());
    assert_eq!(r.events.len(), 1);
    assert!(matches!(&r.events[0], LogEvent::ErrorBadMagic { short_key } if short_key == "x.pk"));
}

#[test]
fn bad_magic_is_logged_but_extraction_continues() {
    let files = vec![req("a.txt", 1, 1)];
    let entries = dir(&[(crc("a.txt"), 1)]);
    let r = run_archive(
        1,
        2,
        "x.pk",
        &files,
        ArchiveAccess::Opened { magic_ok: false, entries },
        false,
        "out",
    );
    assert!(!r.failed);
    assert!(matches!(&r.events[0], LogEvent::ErrorBadMagic { .. }));
    assert_eq!(r.actions.len(), 1);
    match &r.actions[0] {
        Action::Write { dest, compressed, .. } => {
            assert_eq!(dest, "out/a.txt");
            assert!(*compressed);
        }
        _ => panic!("expected a write"),
    }
    // The progress line closes the batch: its ordinal out of the total.
    match r.events.last().unwrap() {
        LogEvent::InfoProgress { current, total, short_key } => {
            assert_eq!(*current, 1);
            assert_eq!(*total, 2);
            assert_eq!(short_key, "x.pk");
        }
        _ => panic!("expected a progress line"),
    }
}

#[test]
fn end_to_end_plan_and_extract_one_file() {
    // Manifest: one file of 10 bytes; index: its checksum lives in archive X.
    let manifest = vec![ManifestEntry { path: "a/b.txt".to_string(), filesize: 10, hash: 0xa1 }];
    let mut map: HashMap<u32, u32> = HashMap::new();
    map.insert(crc("a/b.txt"), 0);
    let index = PackIndex { archives: vec!["X".to_string()], files: map };
    let batches = plan(&manifest, &Filter::all(), &index);
    assert_eq!(batches.len(), 1);
    assert_eq!(batches[0].pk_key, "X");
    assert_eq!(batches[0].files.len(), 1);
    assert_eq!(batches[0].files[0].filesize, 10);

    let entries = vec![DirEntry { crc: crc("a/b.txt"), is_compressed: 0 }];
    let r = run_archive(
        1,
        1,
        &batches[0].pk_key,
        &batches[0].files,
        ArchiveAccess::Opened { magic_ok: true, entries },
        false,
        "root",
    );
    assert!(!r.failed);
    assert_eq!(r.actions.len(), 1);
    match &r.actions[0] {
        Action::Write { entry_index, crc: c, dest, compressed } => {
            assert_eq!(*entry_index, 0);
            assert_eq!(*c, crc("a/b.txt"));
            assert_eq!(dest, "root/a/b.txt");
            assert!(!*compressed);
        }
        _ => panic!("expected a write"),
    }
    assert_eq!(r.events.len(), 1);
    assert!(matches!(&r.events[0], LogEvent::InfoProgress { current: 1, total: 1, .. }));
}
