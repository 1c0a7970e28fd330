//! The checkpoint must be invisible to the user's git, and the rollback must be
//! incapable of touching work the run never touched.

use std::collections::BTreeMap;

use minions_core::checkpoint::{
    content_question, discard, git_ok, index_name, is_repository, reference_of, rollback, snapshot,
    snapshot_question, unreadable, Checkpoint, GitReply, Restored, Taken,
};
use minions_core::paths::FilePath;

fn path(text: &str) -> FilePath {
    FilePath::new(text)
}

/// As much of git as the checkpoint asks of it. Names are relative to the root.
#[derive(Default, Clone)]
struct Repo {
    is_repository: bool,
    ignored: Vec<String>,
    worktree: BTreeMap<String, String>,
    head: Option<String>,
    index: Vec<String>,
    trees: Vec<BTreeMap<String, String>>,
    commits: Vec<(usize, Option<String>)>,
    refs: BTreeMap<String, String>,
    scratch: Option<BTreeMap<String, String>>,
    said: Vec<String>,
}

fn repo() -> Repo {
    let mut r = Repo { is_repository: true, ignored: vec!["ignored.txt".into()], ..Repo::default() };
    r.worktree.insert("tracked.txt".into(), "original\n".into());
    r.trees.push(r.worktree.clone());
    r.commits.push((0, None));
    r.head = Some("c0".into());
    r
}

fn good(stdout: &str) -> Option<GitReply> {
    Some(GitReply { success: true, stdout: format!("{stdout}\n"), stderr: String::new() })
}

fn bad(stderr: &str) -> Option<GitReply> {
    Some(GitReply { success: false, stdout: String::new(), stderr: stderr.into() })
}

impl Repo {
    fn state(&self) -> (Option<String>, BTreeMap<String, String>, Vec<String>) {
        (self.head.clone(), self.worktree.clone(), self.index.clone())
    }

    fn tree_of(&self, commit: &str) -> Option<&BTreeMap<String, String>> {
        let n: usize = commit.strip_prefix('c')?.parse().ok()?;
        self.trees.get(self.commits.get(n)?.0)
    }

    fn git(&mut self, args: &[String], scratch_index: bool) -> Option<GitReply> {
        self.said.push(args.join(" "));
        let words: Vec<&str> = args.iter().map(|a| a.as_str()).collect();
        match words[0] {
            "rev-parse" if words[1] == "--is-inside-work-tree" => {
                if self.is_repository {
                    good("true")
                } else {
                    bad("fatal: not a git repository")
                }
            }
            "rev-parse" => match &self.head {
                Some(h) => good(h),
                None => bad("fatal: no HEAD"),
            },
            "add" => {
                assert!(scratch_index, "the user's index was touched");
                let kept = self.worktree.iter().filter(|(n, _)| !self.ignored.contains(n));
                self.scratch = Some(kept.map(|(n, t)| (n.clone(), t.clone())).collect());
                good("")
            }
            "write-tree" => {
                assert!(scratch_index, "the user's index was read");
                self.trees.push(self.scratch.take().expect("nothing was staged"));
                good(&format!("t{}", self.trees.len() - 1))
            }
            "update-ref" if words[1] == "-d" => {
                self.refs.remove(words[2]);
                good("")
            }
            "update-ref" => {
                self.refs.insert(words[1].into(), words[2].into());
                good("")
            }
            "cat-file" => {
                let (commit, name) = words[2].split_once(':').unwrap();
                match self.tree_of(commit).and_then(|t| t.get(name)) {
                    Some(text) if words[1] == "blob" => {
                        Some(GitReply { success: true, stdout: text.clone(), stderr: String::new() })
                    }
                    Some(_) => good(""),
                    None => bad("fatal: not in the tree"),
                }
            }
            _ if words.contains(&"commit-tree") => {
                let tree = words.iter().find_map(|w| w.strip_prefix('t')?.parse::<usize>().ok()).unwrap();
                let parent = words.iter().position(|w| *w == "-p").map(|i| words[i + 1].to_string());
                self.commits.push((tree, parent));
                good(&format!("c{}", self.commits.len() - 1))
            }
            other => panic!("git was asked {other}"),
        }
    }

    fn snapshot(&mut self, run_id: &str) -> Result<Checkpoint, String> {
        let mut taking = snapshot();
        loop {
            let asked = taking.command(run_id);
            let reply = self.git(&asked.args, asked.scratch_index);
            match taking.advance(run_id, &reply) {
                Taken::On(next) => taking = next,
                Taken::Done(cp) => return Ok(cp),
                Taken::Failed(why) => return Err(why),
            }
        }
    }

    fn rollback(&mut self, cp: &Checkpoint, mutated: &[(FilePath, bool)]) -> Vec<Restored> {
        let root = path("/p");
        let held: Vec<bool> = mutated
            .iter()
            .map(|(p, _)| match snapshot_question(&root, cp, p) {
                Some(args) => is_repository(&self.git(&args, false)),
                None => false,
            })
            .collect();
        let done = rollback(&root, mutated, &held);
        for d in &done {
            match d {
                Restored::Content(p) => {
                    let args = content_question(&root, cp, p).expect("what is held has a name");
                    let text = self.git(&args, false).unwrap().stdout;
                    self.worktree.insert(name(p), text);
                }
                Restored::Removed(p) => {
                    self.worktree.remove(&name(p));
                }
                Restored::Unrecoverable(_) => {}
            }
        }
        done
    }
}

fn name(p: &FilePath) -> String {
    p.strip_prefix(&path("/p")).unwrap().as_str().to_string()
}

fn under(n: &str) -> FilePath {
    path("/p").join(n)
}

#[test]
fn a_checkpoint_leaves_the_users_git_exactly_as_it_was() {
    let mut r = repo();
    r.worktree.insert("dirty.txt".into(), "uncommitted\n".into());

    let before = r.state();
    let cp = r.snapshot("run-1").unwrap();
    let after = r.state();

    assert_eq!(before, after, "the checkpoint disturbed HEAD, branch, worktree or stash");
    assert!(cp.reference.starts_with("refs/minions/"), "checkpoints must live in their own namespace");
    assert!(r.refs.keys().all(|k| k.starts_with("refs/minions/")), "checkpoint appeared as a branch");
    assert_eq!(r.refs.get(&cp.reference), Some(&cp.commit));
    assert_eq!(r.commits.last().unwrap().1.as_deref(), Some("c0"), "a checkpoint stands on HEAD");
}

#[test]
fn rollback_restores_a_modified_file_and_deletes_a_created_one() {
    let mut r = repo();
    let cp = r.snapshot("run-2").unwrap();

    r.worktree.insert("tracked.txt".into(), "damaged\n".into());
    r.worktree.insert("added.txt".into(), "new\n".into());

    let mutated = vec![(under("tracked.txt"), true), (under("added.txt"), false)];
    let done = r.rollback(&cp, &mutated);

    assert_eq!(r.worktree["tracked.txt"], "original\n");
    assert!(!r.worktree.contains_key("added.txt"), "a file the run created must be removed");
    assert!(done.contains(&Restored::Content(under("tracked.txt"))));
    assert!(done.contains(&Restored::Removed(under("added.txt"))));
}

#[test]
fn rollback_cannot_touch_a_file_the_run_never_touched() {
    // The whole point of scoping by the journal: the user edits neighbouring
    // files while a run works, and those edits must survive.
    let mut r = repo();
    let cp = r.snapshot("run-3").unwrap();

    r.worktree.insert("tracked.txt".into(), "damaged by the agent\n".into());
    r.worktree.insert("my-own-work.txt".into(), "written by the human mid-run\n".into());

    // Only the agent's file is in the journal.
    r.rollback(&cp, &[(under("tracked.txt"), true)]);

    assert_eq!(r.worktree["tracked.txt"], "original\n");
    assert_eq!(
        r.worktree["my-own-work.txt"], "written by the human mid-run\n",
        "rollback destroyed work outside its scope"
    );
}

#[test]
fn a_gitignored_file_is_reported_as_unrecoverable_rather_than_silently_lost() {
    let mut r = repo();
    r.worktree.insert("ignored.txt".into(), "before\n".into());

    let cp = r.snapshot("run-4").unwrap();
    r.worktree.insert("ignored.txt".into(), "after\n".into());

    let done = r.rollback(&cp, &[(under("ignored.txt"), true)]);

    assert_eq!(done, vec![Restored::Unrecoverable(under("ignored.txt"))]);
    assert_eq!(r.worktree["ignored.txt"], "after\n", "an unrecoverable file must be left alone, not deleted");
}

#[test]
fn a_repository_with_no_commits_can_still_be_checkpointed() {
    let mut r = Repo { is_repository: true, ..Repo::default() };
    r.worktree.insert("a.txt".into(), "one\n".into());

    let cp = r.snapshot("run-6").expect("a fresh repository must be checkpointable");
    assert_eq!(r.commits.last().unwrap().1, None, "there is no HEAD to stand on");
    r.worktree.insert("a.txt".into(), "two\n".into());
    r.rollback(&cp, &[(under("a.txt"), true)]);
    assert_eq!(r.worktree["a.txt"], "one\n");
}

#[test]
fn a_folder_that_is_not_a_repository_refuses_up_front() {
    let mut r = Repo::default();
    let err = r.snapshot("run-7").unwrap_err();
    assert!(err.contains("not a git repository"), "unhelpful message: {err}");
    assert!(err.contains("rollback"), "the message must name what is lost: {err}");
    assert_eq!(r.said.len(), 1, "nothing may happen before that");
}

#[test]
fn discarding_a_checkpoint_removes_its_ref() {
    let mut r = repo();
    let cp = r.snapshot("run-8").unwrap();
    assert!(!r.refs.is_empty());
    r.git(&discard(&cp), false);
    assert!(r.refs.is_empty());
}

#[test]
fn a_path_outside_the_root_is_reported_not_guessed_at() {
    let mut r = repo();
    let cp = r.snapshot("run-9").unwrap();
    let outside = path("/tmp/definitely-not-in-the-project.txt");
    let done = r.rollback(&cp, &[(outside.clone(), true)]);
    assert_eq!(done, vec![Restored::Unrecoverable(outside.clone())]);
    assert_eq!(
        unreadable(&path("/p"), &under("a/b.txt")),
        "reading a/b.txt from the checkpoint failed"
    );
}

#[test]
fn what_git_says_is_taken_without_its_line_end() {
    let args = vec!["rev-parse".to_string(), "HEAD".to_string()];
    assert_eq!(git_ok(&args, &good("abc")), Ok("abc".to_string()));
    let refused = git_ok(&args, &bad("fatal: bad revision\n")).unwrap_err();
    assert!(refused.contains("rev-parse HEAD") && refused.contains("fatal: bad revision"), "{refused}");
    let absent = git_ok(&args, &None).unwrap_err();
    assert!(absent.contains("running git rev-parse HEAD"), "{absent}");
    assert_eq!(index_name("r1"), "minions-index-r1");
    assert_eq!(reference_of("r1"), "refs/minions/checkpoints/r1");
}

#[test]
fn a_step_that_git_refuses_ends_the_taking() {
    let taking = snapshot();
    let after = match taking.advance("r", &good("true")) {
        Taken::On(t) => t,
        other => panic!("{other:?}"),
    };
    match after.advance("r", &bad("disk full\n")) {
        Taken::Failed(why) => assert!(why.contains("disk full"), "{why}"),
        other => panic!("{other:?}"),
    }
}
