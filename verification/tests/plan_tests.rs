use std::collections::HashMap;

use assembly_pack::crc::calculate_crc;
use pack_unpack::filter::Filter;
use pack_unpack::plan::{plan, ManifestEntry, PackIndex};

fn crc(path: &str) -> u32 {
    calculate_crc(path.as_bytes())
}

fn entry(path: &str, size: u32, hash: u128) -> ManifestEntry {
    ManifestEntry { path: path.to_string(), filesize: size, hash }
}

fn index_of(archives: &[&str], files: &[(&str, u32)]) -> PackIndex {
    let mut map: HashMap<u32, u32> = HashMap::new();
    for (path, ordinal) in files {
        map.insert(crc(path), *ordinal);
    }
    PackIndex {
        archives: archives.iter().map(|s| s.to_string()).collect(),
        files: map,
    }
}

#[test]
fn plan_groups_by_archive_in_key_order() {
    // Archive ordinals deliberately disagree with the keys' sorted order.
    let index = index_of(
        &["packs\\b.pk", "packs\\a.pk"],
        &[("a.txt", 1), ("b.txt", 0), ("c.txt", 0)],
    );
    let manifest = vec![
        entry("a.txt", 1, 11),
        entry("b.txt", 2, 22),
        entry("c.txt", 3, 33),
    ];
    let batches = plan(&manifest, &Filter::all(), &index);
    assert_eq!(batches.len(), 2);
    // Batches come out sorted by archive key.
    assert_eq!(batches[0].pk_key, "packs\\a.pk");
    assert_eq!(batches[1].pk_key, "packs\\b.pk");
    assert_eq!(batches[0].files.len(), 1);
    assert_eq!(batches[0].files[0].path, "a.txt");
    assert_eq!(batches[0].files[0].crc, crc("a.txt"));
    assert_eq!(batches[0].files[0].filesize, 1);
    assert_eq!(batches[0].files[0].hash, 11);
    // Requests within a batch keep manifest order.
    assert_eq!(batches[1].files.len(), 2);
    assert_eq!(batches[1].files[0].path, "b.txt");
    assert_eq!(batches[1].files[1].path, "c.txt");
}

#[test]
fn plan_makes_no_empty_batches() {
    // Only one of the two archives is referenced by any selected entry.
    let index = index_of(&["x.pk", "y.pk"], &[("a.txt", 0)]);
    let manifest = vec![entry("a.txt", 1, 0)];
    let batches = plan(&manifest, &Filter::all(), &index);
    assert_eq!(batches.len(), 1);
    assert_eq!(batches[0].pk_key, "x.pk");
    assert!(!batches[0].files.is_empty());
}

#[test]
fn plan_skips_entries_missing_from_index() {
    let index = index_of(&["x.pk"], &[("a.txt", 0)]);
    let manifest = vec![entry("a.txt", 1, 0), entry("not-indexed.txt", 2, 0)];
    let batches = plan(&manifest, &Filter::all(), &index);
    assert_eq!(batches.len(), 1);
    assert_eq!(batches[0].files.len(), 1);
    assert_eq!(batches[0].files[0].path, "a.txt");
}

#[test]
fn plan_respects_filter() {
    let index = index_of(&["x.pk"], &[("a.txt", 0), ("b.bin", 0)]);
    let manifest = vec![entry("a.txt", 1, 0), entry("b.bin", 2, 0)];
    let (filter, warnings) = Filter::from_lines(&vec!["*.txt".to_string()]).unwrap();
    assert!(warnings.is_empty());
    let batches = plan(&manifest, &filter, &index);
    assert_eq!(batches.len(), 1);
    assert_eq!(batches[0].files.len(), 1);
    assert_eq!(batches[0].files[0].path, "a.txt");
}

#[test]
fn plan_filtered_to_nothing_is_empty() {
    let index = index_of(&["x.pk"], &[("a.bin", 0)]);
    let manifest = vec![entry("a.bin", 1, 0)];
    let (filter, _) = Filter::from_lines(&vec!["*.txt".to_string()]).unwrap();
    let batches = plan(&manifest, &filter, &index);
    assert!(batches.is_empty());
}

#[test]
fn plan_is_stable_across_runs() {
    let index = index_of(
        &["z.pk", "m.pk", "a.pk"],
        &[("one", 0), ("two", 1), ("three", 2), ("four", 1)],
    );
    let manifest = vec![
        entry("one", 1, 1),
        entry("two", 2, 2),
        entry("three", 3, 3),
        entry("four", 4, 4),
    ];
    let first = plan(&manifest, &Filter::all(), &index);
    let second = plan(&manifest, &Filter::all(), &index);
    assert_eq!(first.len(), second.len());
    for (b1, b2) in first.iter().zip(second.iter()) {
        assert_eq!(b1.pk_key, b2.pk_key);
        assert_eq!(b1.files.len(), b2.files.len());
        for (q1, q2) in b1.files.iter().zip(b2.files.iter()) {
            assert_eq!(q1.crc, q2.crc);
            assert_eq!(q1.path, q2.path);
            assert_eq!(q1.filesize, q2.filesize);
            assert_eq!(q1.hash, q2.hash);
        }
    }
    // And the keys really are in ascending order.
    assert_eq!(first[0].pk_key, "a.pk");
    assert_eq!(first[1].pk_key, "m.pk");
    assert_eq!(first[2].pk_key, "z.pk");
}
