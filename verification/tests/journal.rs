use minions_core::journal::{Effect, Entry, Journal};
use minions_core::paths::FilePath;

fn entry(effect: Effect, paths: &[&str], existed: &[bool]) -> Entry {
    Entry {
        at: "2026-08-16T00:00:00Z".into(),
        node: "coder".into(),
        attempt: 1,
        effect,
        verdict: "Allowed".into(),
        paths: paths.iter().map(|p| FilePath::new(p)).collect(),
        command: None,
        exit_code: None,
        note: None,
        existed_before: existed.to_vec(),
    }
}

#[test]
fn mutated_paths_ignores_reads() {
    let es = vec![
        entry(Effect::Read, &["read-only.rs"], &[]),
        entry(Effect::Wrote, &["changed.rs"], &[true]),
        entry(Effect::Searched, &[], &[]),
    ];
    let m = Journal::mutated_paths(&es);
    assert_eq!(m.len(), 1);
    assert_eq!(m[0].0, FilePath::new("changed.rs"));
}

#[test]
fn first_touch_wins_so_rollback_knows_what_to_delete() {
    // The file did not exist when the run first wrote it; a later write must
    // not flip that to "existed", or rollback would restore instead of delete.
    let es = vec![
        entry(Effect::Wrote, &["new.rs"], &[false]),
        entry(Effect::Wrote, &["new.rs"], &[true]),
    ];
    let m = Journal::mutated_paths(&es);
    assert_eq!(m.len(), 1);
    assert!(!m[0].1, "first touch must win");
}

#[test]
fn writes_by_counts_only_what_that_node_really_did() {
    let mut coder = entry(Effect::Wrote, &["a.py"], &[false]);
    coder.node = "coder".into();
    let mut refused = entry(Effect::Wrote, &["b.py"], &[false]);
    refused.node = "coder".into();
    refused.verdict = "Rejected".into();
    let mut other = entry(Effect::Wrote, &["c.py"], &[false]);
    other.node = "tester".into();
    let mut read = entry(Effect::Read, &["d.py"], &[]);
    read.node = "coder".into();

    let es = vec![coder, refused, other, read];
    assert_eq!(Journal::writes_by(&es, "coder"), 1, "a refused write must not count as work done");
    assert_eq!(Journal::writes_by(&es, "tester"), 1);
    assert_eq!(Journal::writes_by(&es, "nobody"), 0);
}

#[test]
fn deletions_are_in_scope_for_rollback() {
    let es = vec![entry(Effect::Deleted, &["gone.rs"], &[true])];
    let m = Journal::mutated_paths(&es);
    assert_eq!(m, vec![(FilePath::new("gone.rs"), true)]);
}

#[test]
fn one_file_written_two_ways_is_one_file() {
    let es = vec![
        entry(Effect::Wrote, &["src/a.rs", "b.rs"], &[false]),
        entry(Effect::Wrote, &["src//./a.rs"], &[true]),
    ];
    let m = Journal::mutated_paths(&es);
    assert_eq!(m.len(), 2);
    assert_eq!(m[0].0.as_str(), "src/a.rs");
    assert!(!m[0].1 && !m[1].1, "what is not recorded was not there");
}

#[test]
fn a_journal_lies_in_its_run_and_blank_lines_are_no_entries() {
    let j = Journal::create(&FilePath::new("/p/run"));
    assert_eq!(j.path().as_str(), "/p/run/journal.jsonl");
    assert_eq!(Journal::lines_of("{\"a\":1}\n\n  \n{\"b\":2}\n"), vec!["{\"a\":1}", "{\"b\":2}"]);
}

#[test]
fn what_was_declined_is_not_considered_by_rollback() {
    let mut rejected = entry(Effect::Wrote, &["b.py"], &[]);
    rejected.verdict = "Rejected".into();
    rejected.note = Some("no".into());
    let mut forbidden = entry(Effect::Deleted, &["c.py"], &[]);
    forbidden.verdict = "Forbidden".into();
    assert_eq!(Journal::mutated_paths(&[rejected.clone()]), vec![]);
    let done = entry(Effect::Wrote, &["b.py"], &[true]);
    assert_eq!(
        Journal::mutated_paths(&[rejected, forbidden, done]),
        vec![(FilePath::new("b.py"), true)],
        "the first touch is the first that was done"
    );
}

#[test]
fn a_write_that_touched_no_file_does_not_count() {
    // A patch that did not apply is recorded as a write of nothing.
    let mut failed = entry(Effect::Wrote, &[], &[]);
    failed.exit_code = Some(1);
    let es = vec![failed, entry(Effect::Wrote, &["a.py", "b.py"], &[true, false])];
    assert_eq!(Journal::writes_by(&es[..1], "coder"), 0);
    assert_eq!(Journal::writes_by(&es, "coder"), 1);
}

#[test]
fn every_path_that_was_changed_is_considered_by_rollback() {
    let es = vec![
        entry(Effect::Wrote, &["a.py", "b.py"], &[true, false]),
        entry(Effect::Read, &["c.py"], &[]),
        entry(Effect::Deleted, &["d.py"], &[true]),
        entry(Effect::Wrote, &["b.py", "e.py"], &[true]),
    ];
    let paths: Vec<FilePath> = Journal::mutated_paths(&es).into_iter().map(|(p, _)| p).collect();
    assert_eq!(paths, ["a.py", "b.py", "d.py", "e.py"].map(FilePath::new));
}
