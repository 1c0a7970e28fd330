//! Snapshot and journal-scoped restore.
//!
//! The snapshot captures the whole working tree as a git object without
//! touching anything the user owns: not HEAD, not the branch, not the index,
//! not the stash, not a file. It is anchored under `refs/minions/` so garbage
//! collection cannot reclaim it and `git branch` never shows it.
//!
//! Restore takes its *content* from the snapshot and its *path list* from the
//! run journal. The user edits neighbouring files while a run works; a
//! whole-tree revert would destroy that, and a journal-scoped one cannot.
//!
//! What to ask git, and what to make of its answers, is decided here.

use vstd::prelude::*;
use crate::journal;
use crate::journal::Entry;
use crate::paths;
use crate::paths::FilePath;
use crate::split;
use crate::split::join_strings;
use crate::text;
use crate::text::{chars_of, string_of, trimmed};

verus! {

#[derive(Debug, Clone, PartialEq, Eq)]
pub struct Checkpoint {
    pub commit: String,
    pub reference: String,
}

#[derive(Debug, Clone, PartialEq, Eq)]
pub enum Restored {
    Content(FilePath),
    Removed(FilePath),
    /// Present in the journal but absent from the snapshot, because
    /// `.gitignore` excluded it. Nothing can be restored; the user was warned
    /// when it was let through, and it is reported again here.
    Unrecoverable(FilePath),
}

/// What is done about a path.
pub enum Fate {
    Content,
    Removed,
    Unrecoverable,
}

impl Restored {
    pub open spec fn path(self) -> Seq<char> {
        match self {
            Restored::Content(p) => p@,
            Restored::Removed(p) => p@,
            Restored::Unrecoverable(p) => p@,
        }
    }

    pub open spec fn fate(self) -> Fate {
        match self {
            Restored::Content(_) => Fate::Content,
            Restored::Removed(_) => Fate::Removed,
            Restored::Unrecoverable(_) => Fate::Unrecoverable,
        }
    }
}

/// What git said.
#[derive(Debug, Clone, PartialEq, Eq)]
pub struct GitReply {
    pub success: bool,
    pub stdout: String,
    pub stderr: String,
}

/// What git is asked, and whether the question goes to a scratch index instead of
/// the user's own.
#[derive(Debug, Clone, PartialEq, Eq)]
pub struct GitCommand {
    pub args: Vec<String>,
    pub scratch_index: bool,
}

/// What git is asked, as texts.
#[verifier::ext_equal]
pub struct Asked {
    pub args: Seq<Seq<char>>,
    pub scratch_index: bool,
}

impl View for GitCommand {
    type V = Asked;

    open spec fn view(&self) -> Asked {
        Asked { args: text::texts(self.args@), scratch_index: self.scratch_index }
    }
}

/// Builds a list of words.
fn words(v: &[&str]) -> (r: Vec<String>)
    ensures
        text::texts(r@) == text::names(v@),
{
    let ghost all = text::names(v@);
    let mut r: Vec<String> = Vec::new();
    let mut i: usize = 0;
    assert(text::texts(r@) =~= all.take(0));
    while i < v.len()
        invariant
            i <= v.len(),
            all == text::names(v@),
            text::texts(r@) == all.take(i as int),
        decreases v.len() - i,
    {
        let w = v[i].to_owned();
        proof {
            text::lemma_texts_push(r@, w);
        }
        r.push(w);
        i = i + 1;
        assert(all.take(i as int) =~= all.take(i - 1).push(all[i - 1]));
    }
    assert(all.take(i as int) =~= all);
    r
}

/// What an answer to a question gives: what git printed, or what went wrong. No
/// reply means that git could not be run.
pub open spec fn answer(args: Seq<Seq<char>>, reply: Option<GitReply>) -> Result<Seq<char>, Seq<char>> {
    match reply {
        None => Err("running git "@ + split::join(args, " "@)),
        Some(r) => if r.success {
            Ok(text::trim(r.stdout@))
        } else {
            Err("git "@ + split::join(args, " "@) + " failed: "@ + text::trim(r.stderr@))
        },
    }
}

fn trimmed_text(s: &str) -> (r: String)
    ensures
        r@ == text::trim(s@),
{
    let chars = chars_of(s);
    string_of(trimmed(chars.as_slice()))
}

/// Reads git's answer to a question.
pub fn git_ok(args: &[String], reply: &Option<GitReply>) -> (r: Result<String, String>)
    ensures
        match r {
            Ok(s) => answer(text::texts(args@), *reply) == Ok::<Seq<char>, Seq<char>>(s@),
            Err(s) => answer(text::texts(args@), *reply) == Err::<Seq<char>, Seq<char>>(s@),
        },
{
    match reply {
        None => {
            let mut s = "running git ".to_owned();
            s.append(join_strings(args, " ").as_str());
            Err(s)
        },
        Some(r) => {
            if r.success {
                Ok(trimmed_text(r.stdout.as_str()))
            } else {
                let mut s = "git ".to_owned();
                s.append(join_strings(args, " ").as_str());
                s.append(" failed: ");
                s.append(trimmed_text(r.stderr.as_str()).as_str());
                Err(s)
            }
        },
    }
}

/// Whether a folder is a repository, by git's answer to whether it lies inside a
/// working tree.
pub fn is_repository(reply: &Option<GitReply>) -> (r: bool)
    ensures
        r == (reply matches Some(g) && g.success),
{
    match reply {
        Some(g) => g.success,
        None => false,
    }
}

// -------------------------------------------------------------------------- snapshot

/// The name of the scratch index of a run.
pub open spec fn index_text(run_id: Seq<char>) -> Seq<char> {
    "minions-index-"@ + run_id
}

/// The ref that a run's checkpoint is anchored at.
pub open spec fn reference_text(run_id: Seq<char>) -> Seq<char> {
    "refs/minions/checkpoints/"@ + run_id
}

/// The message of a run's checkpoint.
pub open spec fn message_text(run_id: Seq<char>) -> Seq<char> {
    "minions checkpoint "@ + run_id
}

/// The name of the scratch index of a run, in the folder for temporary files.
pub fn index_name(run_id: &str) -> (s: String)
    ensures
        s@ == index_text(run_id@),
{
    let mut s = "minions-index-".to_owned();
    s.append(run_id);
    s
}

/// The ref that a run's checkpoint is anchored at.
pub fn reference_of(run_id: &str) -> (s: String)
    ensures
        s@ == reference_text(run_id@),
{
    let mut s = "refs/minions/checkpoints/".to_owned();
    s.append(run_id);
    s
}

/// How far the taking of a checkpoint has come: what git is asked next.
#[derive(Debug, Clone, PartialEq, Eq)]
pub enum Taking {
    /// Whether this is a repository at all.
    Checking,
    /// Put everything into the scratch index.
    Staging,
    /// Make a tree of the scratch index. It is not needed after that.
    WritingTree,
    /// Ask where HEAD is.
    FindingHead { tree: String },
    /// Make a commit of the tree, on top of HEAD where there is one. A
    /// repository with no commits yet has no HEAD to parent onto.
    Committing { tree: String, head: Option<String> },
    /// Anchor the commit.
    Anchoring { commit: String },
}

/// How far the taking of a checkpoint has come, as texts.
pub enum Phase {
    Checking,
    Staging,
    WritingTree,
    FindingHead { tree: Seq<char> },
    Committing { tree: Seq<char>, head: Option<Seq<char>> },
    Anchoring { commit: Seq<char> },
}

impl View for Taking {
    type V = Phase;

    open spec fn view(&self) -> Phase {
        match self {
            Taking::Checking => Phase::Checking,
            Taking::Staging => Phase::Staging,
            Taking::WritingTree => Phase::WritingTree,
            Taking::FindingHead { tree } => Phase::FindingHead { tree: tree@ },
            Taking::Committing { tree, head } => Phase::Committing {
                tree: tree@,
                head: crate::json::said(*head),
            },
            Taking::Anchoring { commit } => Phase::Anchoring { commit: commit@ },
        }
    }
}

/// What git is asked in a phase.
pub open spec fn question(phase: Phase, run_id: Seq<char>) -> Asked {
    match phase {
        Phase::Checking => Asked { args: seq!["rev-parse"@, "--is-inside-work-tree"@], scratch_index: false },
        Phase::Staging => Asked { args: seq!["add"@, "-A"@], scratch_index: true },
        Phase::WritingTree => Asked { args: seq!["write-tree"@], scratch_index: true },
        Phase::FindingHead { .. } => Asked { args: seq!["rev-parse"@, "HEAD"@], scratch_index: false },
        Phase::Committing { tree, head } => Asked {
            args: match head {
                Some(h) => seq!["commit-tree"@, tree, "-p"@, h, "-m"@, message_text(run_id)],
                None => seq!["commit-tree"@, tree, "-m"@, message_text(run_id)],
            },
            scratch_index: false,
        },
        Phase::Anchoring { commit } => Asked {
            args: seq!["update-ref"@, reference_text(run_id), commit],
            scratch_index: false,
        },
    }
}

/// Where the taking of a checkpoint stands after an answer.
#[derive(Debug, Clone, PartialEq, Eq)]
pub enum Taken {
    On(Taking),
    Done(Checkpoint),
    Failed(String),
}

/// Where the taking of a checkpoint stands, as texts.
pub enum Reached {
    On(Phase),
    Done { commit: Seq<char>, reference: Seq<char> },
    Failed(Seq<char>),
}

impl View for Taken {
    type V = Reached;

    open spec fn view(&self) -> Reached {
        match self {
            Taken::On(t) => Reached::On(t@),
            Taken::Done(c) => Reached::Done { commit: c.commit@, reference: c.reference@ },
            Taken::Failed(why) => Reached::Failed(why@),
        }
    }
}

/// Where the taking of a checkpoint stands after an answer.
pub open spec fn advanced(phase: Phase, run_id: Seq<char>, reply: Option<GitReply>) -> Reached {
    match phase {
        Phase::Checking => if reply matches Some(g) && g.success {
            Reached::On(Phase::Staging)
        } else {
            Reached::Failed(
                "not a git repository, so no checkpoint can be taken and no rollback will be possible"@,
            )
        },
        Phase::Staging => match reply {
            None => Reached::Failed("staging into a scratch index"@),
            Some(g) => if g.success {
                Reached::On(Phase::WritingTree)
            } else {
                Reached::Failed("staging failed: "@ + text::trim(g.stderr@))
            },
        },
        Phase::WritingTree => match reply {
            None => Reached::Failed("writing tree"@),
            Some(g) => if g.success {
                Reached::On(Phase::FindingHead { tree: text::trim(g.stdout@) })
            } else {
                Reached::Failed("write-tree failed: "@ + text::trim(g.stderr@))
            },
        },
        Phase::FindingHead { tree } => Reached::On(
            Phase::Committing {
                tree,
                head: match answer(question(phase, run_id).args, reply) {
                    Ok(h) => Some(h),
                    Err(_) => None,
                },
            },
        ),
        Phase::Committing { .. } => match answer(question(phase, run_id).args, reply) {
            Ok(commit) => Reached::On(Phase::Anchoring { commit }),
            Err(why) => Reached::Failed(why),
        },
        Phase::Anchoring { commit } => match answer(question(phase, run_id).args, reply) {
            Ok(_) => Reached::Done { commit, reference: reference_text(run_id) },
            Err(why) => Reached::Failed(why),
        },
    }
}

/// Begins to capture the working tree. Nothing the user owns is modified.
pub fn snapshot() -> (t: Taking)
    ensures
        t@ == Phase::Checking,
{
    Taking::Checking
}

fn failed_with(what: &str, stderr: &str) -> (t: Taken)
    ensures
        t@ == Reached::Failed(what@ + text::trim(stderr@)),
{
    let mut s = what.to_owned();
    s.append(trimmed_text(stderr).as_str());
    Taken::Failed(s)
}

impl Taking {
    /// What git is asked next.
    pub fn command(&self, run_id: &str) -> (c: GitCommand)
        ensures
            c@ == question(self@, run_id@),
    {
        let c = match self {
            Taking::Checking => GitCommand {
                args: words(&["rev-parse", "--is-inside-work-tree"]),
                scratch_index: false,
            },
            Taking::Staging => GitCommand { args: words(&["add", "-A"]), scratch_index: true },
            Taking::WritingTree => GitCommand { args: words(&["write-tree"]), scratch_index: true },
            Taking::FindingHead { .. } => GitCommand {
                args: words(&["rev-parse", "HEAD"]),
                scratch_index: false,
            },
            Taking::Committing { tree, head } => {
                let mut message = "minions checkpoint ".to_owned();
                message.append(run_id);
                let args = match head {
                    Some(h) => words(
                        &["commit-tree", tree.as_str(), "-p", h.as_str(), "-m", message.as_str()],
                    ),
                    None => words(&["commit-tree", tree.as_str(), "-m", message.as_str()]),
                };
                GitCommand { args, scratch_index: false }
            },
            Taking::Anchoring { commit } => {
                let reference = reference_of(run_id);
                GitCommand {
                    args: words(&["update-ref", reference.as_str(), commit.as_str()]),
                    scratch_index: false,
                }
            },
        };
        assert(c@ =~= question(self@, run_id@));
        c
    }

    /// Goes on after an answer. No reply means that git could not be run.
    pub fn advance(self, run_id: &str, reply: &Option<GitReply>) -> (t: Taken)
        ensures
            t@ == advanced(self@, run_id@, *reply),
    {
        let args = self.command(run_id).args;
        match self {
            Taking::Checking => {
                if is_repository(reply) {
                    Taken::On(Taking::Staging)
                } else {
                    Taken::Failed(
                        "not a git repository, so no checkpoint can be taken and no rollback will be possible".to_owned(),
                    )
                }
            },
            Taking::Staging => match reply {
                None => Taken::Failed("staging into a scratch index".to_owned()),
                Some(g) => {
                    if g.success {
                        Taken::On(Taking::WritingTree)
                    } else {
                        failed_with("staging failed: ", g.stderr.as_str())
                    }
                },
            },
            Taking::WritingTree => match reply {
                None => Taken::Failed("writing tree".to_owned()),
                Some(g) => {
                    if g.success {
                        Taken::On(Taking::FindingHead { tree: trimmed_text(g.stdout.as_str()) })
                    } else {
                        failed_with("write-tree failed: ", g.stderr.as_str())
                    }
                },
            },
            Taking::FindingHead { tree } => {
                let head = match git_ok(args.as_slice(), reply) {
                    Ok(h) => Some(h),
                    Err(_) => None,
                };
                Taken::On(Taking::Committing { tree, head })
            },
            Taking::Committing { .. } => match git_ok(args.as_slice(), reply) {
                Ok(commit) => Taken::On(Taking::Anchoring { commit }),
                Err(why) => Taken::Failed(why),
            },
            Taking::Anchoring { commit } => match git_ok(args.as_slice(), reply) {
                Ok(_) => Taken::Done(Checkpoint { commit, reference: reference_of(run_id) }),
                Err(why) => Taken::Failed(why),
            },
        }
    }
}

// -------------------------------------------------------------------------- rollback

/// The name git has for a file in a commit.
pub open spec fn blob_name(commit: Seq<char>, rel: Seq<char>) -> Seq<char> {
    commit + ":"@ + rel
}

fn name_blob(commit: &str, rel: &str) -> (s: String)
    ensures
        s@ == blob_name(commit@, rel@),
{
    let mut s = commit.to_owned();
    s.append(":");
    s.append(rel);
    s
}

/// Asks git whether the snapshot holds a file. A path outside the root gets no
/// question: the snapshot never covered it.
pub fn snapshot_question(root: &FilePath, cp: &Checkpoint, path: &FilePath) -> (r: Option<Vec<String>>)
    ensures
        match paths::below(path@, root@) {
            Some(rel) => r matches Some(args) && text::texts(args@) == seq![
                "cat-file"@,
                "-e"@,
                blob_name(cp.commit@, rel),
            ],
            None => r is None,
        },
{
    match path.strip_prefix(root) {
        None => None,
        Some(rel) => {
            let name = name_blob(cp.commit.as_str(), rel.as_str());
            let args = words(&["cat-file", "-e", name.as_str()]);
            assert(text::texts(args@) =~= seq!["cat-file"@, "-e"@, name@]);
            Some(args)
        },
    }
}

/// Asks git for what the snapshot holds of a file.
pub fn content_question(root: &FilePath, cp: &Checkpoint, path: &FilePath) -> (r: Option<Vec<String>>)
    ensures
        match paths::below(path@, root@) {
            Some(rel) => r matches Some(args) && text::texts(args@) == seq![
                "cat-file"@,
                "blob"@,
                blob_name(cp.commit@, rel),
            ],
            None => r is None,
        },
{
    match path.strip_prefix(root) {
        None => None,
        Some(rel) => {
            let name = name_blob(cp.commit.as_str(), rel.as_str());
            let args = words(&["cat-file", "blob", name.as_str()]);
            assert(text::texts(args@) =~= seq!["cat-file"@, "blob"@, name@]);
            Some(args)
        },
    }
}

/// What is said where git does not hand a file out that it said it has.
pub fn unreadable(root: &FilePath, path: &FilePath) -> (s: String)
    ensures
        s@ == "reading "@ + (match paths::below(path@, root@) {
            Some(rel) => rel,
            None => path@,
        }) + " from the checkpoint failed"@,
{
    let mut s = "reading ".to_owned();
    match path.strip_prefix(root) {
        Some(rel) => s.append(rel.as_str()),
        None => s.append(path.as_str()),
    }
    s.append(" from the checkpoint failed");
    s
}

/// What is done about a path that the journal names, where `held` is whether the
/// snapshot holds it.
pub open spec fn fate_of(root: Seq<char>, path: Seq<char>, existed: bool, held: bool) -> Fate {
    if paths::below(path, root) is None {
        // Outside the root: a gate let it through deliberately, and the snapshot
        // never covered it.
        Fate::Unrecoverable
    } else if held {
        Fate::Content
    } else if existed {
        // It existed when the run started but is absent from the snapshot, which
        // means .gitignore excluded it. Nothing to restore from.
        Fate::Unrecoverable
    } else {
        // The run created it. Rollback means it should not exist.
        Fate::Removed
    }
}

/// Decides what is done about exactly the paths the journal names, and nothing
/// else. `held` says of each whether the snapshot holds it.
pub fn rollback(root: &FilePath, mutated: &[(FilePath, bool)], held: &[bool]) -> (v: Vec<Restored>)
    requires
        held@.len() == mutated@.len(),
    ensures
        v@.len() == mutated@.len(),
        forall|i: int|
            #![trigger v@[i]]
            0 <= i < v@.len() ==> v@[i].path() == mutated@[i].0@ && v@[i].fate() == fate_of(
                root@,
                mutated@[i].0@,
                mutated@[i].1,
                held@[i],
            ),
{
    let mut v: Vec<Restored> = Vec::new();
    let mut i: usize = 0;
    while i < mutated.len()
        invariant
            i <= mutated.len(),
            v@.len() == i,
            held@.len() == mutated@.len(),
            forall|j: int|
                #![trigger v@[j]]
                0 <= j < i ==> v@[j].path() == mutated@[j].0@ && v@[j].fate() == fate_of(
                    root@,
                    mutated@[j].0@,
                    mutated@[j].1,
                    held@[j],
                ),
        decreases mutated.len() - i,
    {
        let path = mutated[i].0.clone();
        let inside = path.strip_prefix(root).is_some();
        let r = if !inside {
            Restored::Unrecoverable(path)
        } else if held[i] {
            Restored::Content(path)
        } else if mutated[i].1 {
            Restored::Unrecoverable(path)
        } else {
            Restored::Removed(path)
        };
        v.push(r);
        i = i + 1;
    }
    v
}

/// Drops a checkpoint's ref. Asked when its run is deleted from history.
pub fn discard(cp: &Checkpoint) -> (args: Vec<String>)
    ensures
        text::texts(args@) == seq!["update-ref"@, "-d"@, cp.reference@],
{
    let args = words(&["update-ref", "-d", cp.reference.as_str()]);
    assert(text::texts(args@) =~= seq!["update-ref"@, "-d"@, cp.reference@]);
    args
}

// ------------------------------------------------------------------------------ laws

/// The subcommands of git that the taking of a checkpoint uses.
pub open spec fn is_known_question(first: Seq<char>) -> bool {
    ||| first == "rev-parse"@
    ||| first == "add"@
    ||| first == "write-tree"@
    ||| first == "commit-tree"@
    ||| first == "update-ref"@
}

/// A checkpoint is anchored in a namespace of its own, and what git is asked on
/// the way to it stages only into the scratch index: no question but the last
/// moves a ref, and that one moves the anchor.
pub proof fn law_a_checkpoint_touches_nothing_of_the_user(phase: Phase, run_id: Seq<char>)
    ensures
        question(phase, run_id).args[0] == "add"@ ==> question(phase, run_id).scratch_index,
        question(phase, run_id).args[0] == "write-tree"@ ==> question(phase, run_id).scratch_index,
        question(phase, run_id).args[0] == "update-ref"@ ==> question(phase, run_id).args[1] == reference_text(
            run_id,
        ),
        is_known_question(question(phase, run_id).args[0]),
        text::starts_with(reference_text(run_id), "refs/minions/"@),
{
    reveal_strlit("rev-parse");
    reveal_strlit("add");
    reveal_strlit("write-tree");
    reveal_strlit("commit-tree");
    reveal_strlit("update-ref");
    reveal_strlit("refs/minions/");
    reveal_strlit("refs/minions/checkpoints/");
    assert("add"@.len() == 3);
    assert("rev-parse"@.len() == 9);
    assert("write-tree"@[0] == 'w');
    assert("commit-tree"@[0] == 'c');
    assert("update-ref"@[0] == 'u');
    assert("rev-parse"@[0] == 'r');
    assert("write-tree"@.len() == 10);
    assert("commit-tree"@.len() == 11);
    assert("update-ref"@.len() == 10);
    let r = reference_text(run_id);
    assert(r.take("refs/minions/"@.len() as int) =~= "refs/minions/"@);
    assert(r.subrange(0, "refs/minions/"@.len() as int) =~= "refs/minions/"@);
}

/// A file that the run found and the snapshot does not hold is left alone: it is
/// neither overwritten nor removed.
pub proof fn law_what_cannot_be_restored_is_left_alone(root: Seq<char>, path: Seq<char>, held: bool)
    ensures
        fate_of(root, path, true, false) is Unrecoverable,
        !(fate_of(root, path, true, held) is Removed),
        paths::below(path, root) is None ==> forall|existed: bool|
            #[trigger] fate_of(root, path, existed, held) is Unrecoverable,
{
}

/// What is done about a path below the root goes by what the snapshot holds and by
/// whether the run found it: what the snapshot holds is put back, what the run
/// created is removed, and what it found and the snapshot lacks is only reported.
pub proof fn law_each_path_gets_its_due(root: Seq<char>, path: Seq<char>, existed: bool, held: bool)
    requires
        paths::below(path, root) is Some,
    ensures
        fate_of(root, path, existed, held) is Content <==> held,
        fate_of(root, path, existed, held) is Removed <==> !held && !existed,
        fate_of(root, path, existed, held) is Unrecoverable <==> !held && existed,
{
}

/// Rollback undoes what the journal says the run did: of the paths that the run
/// changed, one below the root that the snapshot does not hold is removed exactly
/// where the entry that first changed it says that it was not there.
pub proof fn law_what_the_run_created_is_removed(
    entries: Seq<Entry>,
    i: int,
    j: int,
    root: Seq<char>,
    held: spec_fn(Seq<char>) -> bool,
)
    requires
        journal::is_first_change(entries, i, j),
        paths::below(entries[i].paths@[j]@, root) is Some,
    ensures
        exists|k: int|
            {
                &&& 0 <= k < journal::touched(entries).len()
                &&& (#[trigger] journal::touched(entries)[k]).path == entries[i].paths@[j]@
                &&& ({
                    let t = journal::touched(entries)[k];
                    let fate = fate_of(root, t.path, t.existed, held(t.path));
                    let there = j < entries[i].existed_before@.len() && entries[i].existed_before@[j];
                    &&& fate is Content <==> held(t.path)
                    &&& fate is Removed <==> !held(t.path) && !there
                    &&& fate is Unrecoverable <==> !held(t.path) && there
                })
            },
{
    let k = journal::law_each_first_change_is_considered(entries, i, j);
    assert(journal::touched(entries)[k].path == entries[i].paths@[j]@);
}

/// A reply of a command that went well.
pub open spec fn is_well(reply: Option<GitReply>) -> bool {
    reply matches Some(r) && r.success
}

/// What git printed, without the white space around it.
pub open spec fn printed(reply: Option<GitReply>) -> Seq<char> {
    text::trim(reply->0.stdout@)
}

/// A checkpoint is the commit of the tree that was staged: once everything is
/// staged, the tree that git names is the one that is committed, on top of the HEAD
/// that git names where it names one; the commit that git names is the one that is
/// anchored, and the one that the checkpoint has.
pub proof fn law_a_checkpoint_is_of_what_was_staged(
    run_id: Seq<char>,
    staged: Option<GitReply>,
    tree: Option<GitReply>,
    head: Option<GitReply>,
    commit: Option<GitReply>,
    anchored: Option<GitReply>,
)
    requires
        is_well(staged),
        is_well(tree),
        is_well(commit),
        is_well(anchored),
    ensures
        advanced(Phase::Checking, run_id, staged) == Reached::On(Phase::Staging),
        question(Phase::Staging, run_id).args == seq!["add"@, "-A"@],
        advanced(Phase::Staging, run_id, staged) == Reached::On(Phase::WritingTree),
        question(Phase::WritingTree, run_id).args == seq!["write-tree"@],
        advanced(Phase::WritingTree, run_id, tree) matches Reached::On(finding) && {
            &&& question(finding, run_id).args == seq!["rev-parse"@, "HEAD"@]
            &&& advanced(finding, run_id, head) matches Reached::On(committing) && {
                &&& question(committing, run_id).args == (if is_well(head) {
                    seq!["commit-tree"@, printed(tree), "-p"@, printed(head), "-m"@, message_text(run_id)]
                } else {
                    seq!["commit-tree"@, printed(tree), "-m"@, message_text(run_id)]
                })
                &&& advanced(committing, run_id, commit) matches Reached::On(anchoring) && {
                    &&& question(anchoring, run_id).args == seq![
                        "update-ref"@,
                        reference_text(run_id),
                        printed(commit),
                    ]
                    &&& advanced(anchoring, run_id, anchored) == (Reached::Done {
                        commit: printed(commit),
                        reference: reference_text(run_id),
                    })
                }
            }
        },
{
}

/// No checkpoint comes of a command that went wrong, but for the search of HEAD,
/// which a repository without commits does not have.
pub proof fn law_no_checkpoint_without_success(phase: Phase, run_id: Seq<char>, reply: Option<GitReply>)
    requires
        !is_well(reply),
        !(phase is FindingHead),
    ensures
        advanced(phase, run_id, reply) is Failed,
{
}

/// No two runs share an anchor or a scratch index.
pub proof fn law_each_run_has_its_own_checkpoint(a: Seq<char>, b: Seq<char>)
    requires
        a != b,
    ensures
        reference_text(a) != reference_text(b),
        index_text(a) != index_text(b),
{
    let r = "refs/minions/checkpoints/"@;
    let x = "minions-index-"@;
    if reference_text(a) == reference_text(b) {
        assert((r + a).skip(r.len() as int) =~= a);
        assert((r + b).skip(r.len() as int) =~= b);
    }
    if index_text(a) == index_text(b) {
        assert((x + a).skip(x.len() as int) =~= a);
        assert((x + b).skip(x.len() as int) =~= b);
    }
}

} // verus!
