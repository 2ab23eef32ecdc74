use file_dedup::dedup::{collect_records, deletion_plan, plan_deletions, Deletion, EntryOutcome, FileRecord};
use file_dedup::fingerprint::fingerprint_bytes;

fn fp(content: &[u8]) -> EntryOutcome {
    EntryOutcome::Fingerprinted(fingerprint_bytes(content))
}

fn del(survivor: usize, duplicate: usize) -> Deletion {
    Deletion { survivor, duplicate }
}

/// What remains of `outcomes` after the deletions of `plan`.
fn remaining(outcomes: Vec<EntryOutcome>, plan: &[Deletion]) -> Vec<EntryOutcome> {
    outcomes
        .into_iter()
        .enumerate()
        .filter(|(i, _)| !plan.iter().any(|d| d.duplicate == *i))
        .map(|(_, o)| o)
        .collect()
}

#[test]
fn two_hello_one_world() {
    let outcomes = vec![fp(b"hello"), fp(b"hello"), fp(b"world")];
    let plan = deletion_plan(&outcomes);
    assert_eq!(plan, vec![del(0, 1)]);
    assert_eq!(remaining(outcomes, &plan).len(), 2);
}

#[test]
fn megabyte_zero_files() {
    let zeros = vec![0u8; 1 << 20];
    let mut last_one = zeros.clone();
    *last_one.last_mut().unwrap() = 1;
    let outcomes = vec![fp(&zeros), fp(&zeros), fp(&last_one)];
    let plan = deletion_plan(&outcomes);
    assert_eq!(plan, vec![del(0, 1)]);
    assert_eq!(remaining(outcomes, &plan).len(), 2);
}

#[test]
fn empty_directory() {
    let outcomes: Vec<EntryOutcome> = Vec::new();
    assert!(deletion_plan(&outcomes).is_empty());
}

#[test]
fn single_file() {
    let outcomes = vec![fp(b"only")];
    assert!(deletion_plan(&outcomes).is_empty());
}

#[test]
fn distinct_contents_keep_all() {
    let outcomes = vec![fp(b"a"), fp(b"b"), fp(b"c"), fp(b"")];
    assert!(deletion_plan(&outcomes).is_empty());
}

#[test]
fn first_of_each_class_survives() {
    let outcomes = vec![fp(b"x"), fp(b"y"), fp(b"x"), fp(b"y"), fp(b"x")];
    assert_eq!(deletion_plan(&outcomes), vec![del(0, 2), del(1, 3), del(0, 4)]);
}

#[test]
fn rerun_deletes_nothing() {
    let outcomes = vec![fp(b"x"), fp(b"x"), fp(b"y"), fp(b"x"), fp(b"y"), fp(b"z")];
    let plan = deletion_plan(&outcomes);
    assert_eq!(plan.len(), 3);
    let after = remaining(outcomes, &plan);
    assert_eq!(after.len(), 3);
    assert!(deletion_plan(&after).is_empty());
}

#[test]
fn entries_without_fingerprint_take_no_part() {
    let outcomes = vec![
        EntryOutcome::NotRegularFile,
        fp(b"same"),
        EntryOutcome::Unreadable,
        EntryOutcome::Unavailable,
        fp(b"same"),
        EntryOutcome::Unreadable,
    ];
    assert_eq!(deletion_plan(&outcomes), vec![del(1, 4)]);
}

#[test]
fn unreadable_files_are_never_duplicates_of_each_other() {
    let outcomes = vec![EntryOutcome::Unreadable, EntryOutcome::Unreadable, fp(b"a")];
    assert!(deletion_plan(&outcomes).is_empty());
}

#[test]
fn records_keep_enumeration_positions() {
    let outcomes = vec![EntryOutcome::NotRegularFile, fp(b"a"), EntryOutcome::Unreadable, fp(b"b")];
    let records = collect_records(&outcomes);
    assert_eq!(records.len(), 2);
    assert_eq!(records[0].entry, 1);
    assert_eq!(records[0].fingerprint, fingerprint_bytes(b"a"));
    assert_eq!(records[1].entry, 3);
    assert_eq!(records[1].fingerprint, fingerprint_bytes(b"b"));
}

#[test]
fn plan_names_record_entries() {
    let records = vec![
        FileRecord { fingerprint: "AA".to_string(), entry: 4 },
        FileRecord { fingerprint: "BB".to_string(), entry: 7 },
        FileRecord { fingerprint: "AA".to_string(), entry: 9 },
    ];
    assert_eq!(plan_deletions(&records), vec![del(4, 9)]);
}
