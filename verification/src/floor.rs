//! What a command may do without a human: the floor.
//!
//! A model never names a program directly; every command it asks for arrives as
//! a script for a shell. The shell is therefore transparent here: the script is
//! read and every command in it is judged as a bare program would be.
//!
//! This is a filter over what a model writes, not a boundary. A program name
//! assembled at run time cannot be read here. Hence the two shapes that cannot
//! be read are on the floor themselves: `eval`, and a substitution standing
//! where a program name belongs.

use vstd::prelude::*;
use vstd::slice::slice_subrange;
use crate::paths;
use crate::paths::FilePath;
use crate::split;
use crate::split::{split_any, split_words};
use crate::text;
use crate::text::{begins, chars_of, mentions, has_char, lowered, reads, string_of, stripped_both};

verus! {

/// Why an action needs a human.
#[derive(Debug, Clone, Copy, PartialEq, Eq, Structural)]
pub enum GateReason {
    WriteOutsideRoot,
    WriteToSource,
    WriteInsideRoot,
    Delete,
    Command,
    RemoteRepository,
    PackageInstall,
    Network,
    PrivilegeEscalation,
    NodeGate,
    /// A git subcommand that rewrites the working tree or moves a ref: one of
    /// them destroys the point the run is rolled back to.
    RepositoryRewrite,
    /// The shell writes a file itself, where the journal cannot see it and the
    /// rollback cannot find it.
    ShellRedirect,
    /// The text does not name what will run: `eval`, or a command substitution
    /// standing where a program name should be.
    OpaqueCommand,
}

// ------------------------------------------------------------------- word lists

/// Programs that act with the rights of another.
pub open spec fn raises_privileges(w: Seq<char>) -> bool {
    ||| w == "sudo"@
    ||| w == "su"@
    ||| w == "doas"@
}

fn is_privileged(w: &[char]) -> (r: bool)
    ensures
        r == raises_privileges(w@),
{
    reads(w, "sudo")
        || reads(w, "su")
        || reads(w, "doas")
}

/// Programs that talk to another machine.
pub open spec fn reaches_out(w: Seq<char>) -> bool {
    ||| w == "curl"@
    ||| w == "wget"@
    ||| w == "nc"@
    ||| w == "ncat"@
    ||| w == "netcat"@
    ||| w == "ssh"@
    ||| w == "scp"@
    ||| w == "sftp"@
    ||| w == "rsync"@
    ||| w == "telnet"@
}

fn is_network(w: &[char]) -> (r: bool)
    ensures
        r == reaches_out(w@),
{
    reads(w, "curl")
        || reads(w, "wget")
        || reads(w, "nc")
        || reads(w, "ncat")
        || reads(w, "netcat")
        || reads(w, "ssh")
        || reads(w, "scp")
        || reads(w, "sftp")
        || reads(w, "rsync")
        || reads(w, "telnet")
}

/// Programs that put packages on the machine, whatever they are told.
pub open spec fn installs(w: Seq<char>) -> bool {
    ||| w == "brew"@
    ||| w == "apt"@
    ||| w == "apt-get"@
    ||| w == "yum"@
    ||| w == "dnf"@
    ||| w == "pacman"@
    ||| w == "gem"@
    ||| w == "pipx"@
}

fn is_installer(w: &[char]) -> (r: bool)
    ensures
        r == installs(w@),
{
    reads(w, "brew")
        || reads(w, "apt")
        || reads(w, "apt-get")
        || reads(w, "yum")
        || reads(w, "dnf")
        || reads(w, "pacman")
        || reads(w, "gem")
        || reads(w, "pipx")
}

/// Programs that delete. Deleting is on the floor in every mode, and a command
/// would be the way round it.
pub open spec fn removes(w: Seq<char>) -> bool {
    ||| w == "rm"@
    ||| w == "rmdir"@
    ||| w == "unlink"@
    ||| w == "shred"@
}

fn is_remover(w: &[char]) -> (r: bool)
    ensures
        r == removes(w@),
{
    reads(w, "rm")
        || reads(w, "rmdir")
        || reads(w, "unlink")
        || reads(w, "shred")
}

/// Programs that run something the text does not name.
pub open spec fn is_opaque(w: Seq<char>) -> bool {
    ||| w == "eval"@
    ||| w == "source"@
    ||| w == "."@
}

fn is_opaque_program(w: &[char]) -> (r: bool)
    ensures
        r == is_opaque(w@),
{
    reads(w, "eval")
        || reads(w, "source")
        || reads(w, ".")
}

/// The flags of git that carry the next word away with them. They are compared in
/// lower case.
pub open spec fn takes_a_value(w: Seq<char>) -> bool {
    ||| w == "-c"@
    ||| w == "--git-dir"@
    ||| w == "--work-tree"@
    ||| w == "--namespace"@
}

fn git_flag_takes_value(w: &[char]) -> (r: bool)
    ensures
        r == takes_a_value(w@),
{
    reads(w, "-c")
        || reads(w, "--git-dir")
        || reads(w, "--work-tree")
        || reads(w, "--namespace")
}

/// The git subcommands that reach another repository.
pub open spec fn goes_remote(w: Seq<char>) -> bool {
    ||| w == "push"@
    ||| w == "pull"@
    ||| w == "fetch"@
    ||| w == "clone"@
    ||| w == "remote"@
    ||| w == "submodule"@
    ||| w == "archive"@
}

fn git_remote(w: &[char]) -> (r: bool)
    ensures
        r == goes_remote(w@),
{
    reads(w, "push")
        || reads(w, "pull")
        || reads(w, "fetch")
        || reads(w, "clone")
        || reads(w, "remote")
        || reads(w, "submodule")
        || reads(w, "archive")
}

/// The git subcommands that rewrite the working tree or move a ref. A run is
/// returned to a point held in a git ref, so one of these destroys the way back.
pub open spec fn rewrites(w: Seq<char>) -> bool {
    ||| w == "reset"@
    ||| w == "checkout"@
    ||| w == "restore"@
    ||| w == "switch"@
    ||| w == "clean"@
    ||| w == "stash"@
    ||| w == "update-ref"@
    ||| w == "rebase"@
    ||| w == "filter-branch"@
    ||| w == "reflog"@
    ||| w == "gc"@
}

fn git_rewrite(w: &[char]) -> (r: bool)
    ensures
        r == rewrites(w@),
{
    reads(w, "reset")
        || reads(w, "checkout")
        || reads(w, "restore")
        || reads(w, "switch")
        || reads(w, "clean")
        || reads(w, "stash")
        || reads(w, "update-ref")
        || reads(w, "rebase")
        || reads(w, "filter-branch")
        || reads(w, "reflog")
        || reads(w, "gc")
}

/// The flags with which listing branches or tags becomes deleting or forcing one.
pub open spec fn is_destructive(w: Seq<char>) -> bool {
    ||| w == "-d"@
    ||| w == "-D"@
    ||| w == "--delete"@
    ||| w == "-f"@
    ||| w == "--force"@
}

fn git_destructive_flag(w: &[char]) -> (r: bool)
    ensures
        r == is_destructive(w@),
{
    reads(w, "-d")
        || reads(w, "-D")
        || reads(w, "--delete")
        || reads(w, "-f")
        || reads(w, "--force")
}

/// Programs that install when they are told to.
pub open spec fn manages_packages(w: Seq<char>) -> bool {
    ||| w == "npm"@
    ||| w == "pnpm"@
    ||| w == "yarn"@
    ||| w == "pip"@
    ||| w == "pip3"@
    ||| w == "cargo"@
}

fn is_package_manager(w: &[char]) -> (r: bool)
    ensures
        r == manages_packages(w@),
{
    reads(w, "npm")
        || reads(w, "pnpm")
        || reads(w, "yarn")
        || reads(w, "pip")
        || reads(w, "pip3")
        || reads(w, "cargo")
}

/// The words that tell them to.
pub open spec fn changes_packages(w: Seq<char>) -> bool {
    ||| w == "install"@
    ||| w == "add"@
    ||| w == "publish"@
    ||| w == "uninstall"@
    ||| w == "remove"@
}

fn is_package_change(w: &[char]) -> (r: bool)
    ensures
        r == changes_packages(w@),
{
    reads(w, "install")
        || reads(w, "add")
        || reads(w, "publish")
        || reads(w, "uninstall")
        || reads(w, "remove")
}

/// Programs that run a script they are given as a word.
pub open spec fn is_shell(w: Seq<char>) -> bool {
    ||| w == "sh"@
    ||| w == "bash"@
    ||| w == "zsh"@
    ||| w == "dash"@
    ||| w == "ksh"@
    ||| w == "fish"@
}

fn is_shell_program(w: &[char]) -> (r: bool)
    ensures
        r == is_shell(w@),
{
    reads(w, "sh")
        || reads(w, "bash")
        || reads(w, "zsh")
        || reads(w, "dash")
        || reads(w, "ksh")
        || reads(w, "fish")
}

/// Words that stand in front of the real command without changing what it is.
pub open spec fn is_transparent(w: Seq<char>) -> bool {
    ||| w == "env"@
    ||| w == "command"@
    ||| w == "nohup"@
    ||| w == "time"@
    ||| w == "nice"@
    ||| w == "stdbuf"@
    ||| w == "xargs"@
    ||| w == "exec"@
}

fn is_transparent_word(w: &[char]) -> (r: bool)
    ensures
        r == is_transparent(w@),
{
    reads(w, "env")
        || reads(w, "command")
        || reads(w, "nohup")
        || reads(w, "time")
        || reads(w, "nice")
        || reads(w, "stdbuf")
        || reads(w, "xargs")
        || reads(w, "exec")
}

// ------------------------------------------------------------------ the commands

/// How much text there is in all.
pub open spec fn total(v: Seq<Seq<char>>) -> nat
    decreases v.len(),
{
    if v.len() == 0 {
        0
    } else {
        v[0].len() + total(v.drop_first())
    }
}

/// The name a program goes by, without its directory, in lower case.
pub open spec fn base_name(program: Seq<char>) -> Seq<char> {
    match paths::last_name(program) {
        Some(n) => text::lower(n),
        None => text::lower(program),
    }
}

/// Words in lower case.
pub open spec fn lower_all(v: Seq<Seq<char>>) -> Seq<Seq<char>> {
    v.map_values(|w: Seq<char>| text::lower(w))
}

/// The subcommand of a git command: the first word that is neither a flag nor
/// carried away by one. The words are in lower case.
pub open spec fn subcommand(args: Seq<Seq<char>>) -> Option<Seq<char>>
    decreases args.len(),
{
    if args.len() == 0 {
        None
    } else if !text::starts_with(args[0], "-"@) {
        Some(args[0])
    } else if takes_a_value(args[0]) && args.len() > 1 {
        subcommand(args.skip(2))
    } else {
        subcommand(args.drop_first())
    }
}

/// What is wrong with a git command.
pub open spec fn git_floor(args: Seq<Seq<char>>) -> Option<GateReason> {
    match subcommand(lower_all(args)) {
        None => None,
        Some(sub) => if goes_remote(sub) {
            Some(GateReason::RemoteRepository)
        } else if rewrites(sub) {
            Some(GateReason::RepositoryRewrite)
        } else if (sub == "branch"@ || sub == "tag"@) && exists|i: int|
            0 <= i < args.len() && is_destructive(#[trigger] args[i]) {
            Some(GateReason::RepositoryRewrite)
        } else {
            None
        },
    }
}

/// Whether a flag of a shell says that the next word is the script: a single
/// dash, and a `c` among the letters.
pub open spec fn carries_script(flag: Seq<char>) -> bool {
    text::starts_with(flag, "-"@) && !text::starts_with(flag, "--"@) && flag.contains('c')
}

/// The script among the arguments of a shell.
pub open spec fn payload(args: Seq<Seq<char>>) -> Option<Seq<char>>
    decreases args.len(),
{
    if args.len() == 0 {
        None
    } else if carries_script(args[0]) {
        if args.len() > 1 {
            Some(args[1])
        } else {
            None
        }
    } else {
        payload(args.drop_first())
    }
}

/// The words of a command, without quotation marks.
pub open spec fn bare_words(segment: Seq<char>) -> Seq<Seq<char>> {
    split::words(segment).map_values(|w: Seq<char>| text::strip_both(w, "'\""@))
}

/// The words from the program on: assignments and transparent words in front of
/// it are passed over.
pub open spec fn from_program(words: Seq<Seq<char>>) -> Seq<Seq<char>>
    decreases words.len(),
{
    if words.len() > 0 && (words[0].contains('=') || is_transparent(text::lower(words[0]))) {
        from_program(words.drop_first())
    } else {
        words
    }
}

/// The command that one segment of a script runs: the program and its arguments.
pub open spec fn command_of(segment: Seq<char>) -> Seq<Seq<char>> {
    from_program(bare_words(segment))
}

/// Where one command of a script ends and the next begins. Quotation is not
/// honoured: a separator inside quotes only makes one more command to judge,
/// which errs towards asking a human, while honouring quotes would let a quoted
/// command hide.
pub open spec fn segments(script: Seq<char>) -> Seq<Seq<char>> {
    split::split(script, split::Cut::Any(";\n|&()`{}"@))
}

/// Whether output is sent into a file, as opposed to `2>&1`, which only moves a
/// descriptor.
pub open spec fn redirects(script: Seq<char>) -> bool {
    exists|i: int| 0 <= i < script.len() && #[trigger] script[i] == '>' && !(i + 1 < script.len() && script[i + 1]
        == '&')
}

/// What puts a program with its arguments on the floor: the categories that no
/// consent grants, whatever the mode.
pub open spec fn floor(program: Seq<char>, args: Seq<Seq<char>>) -> Option<GateReason>
    decreases program.len() + total(args), 0nat, 0nat,
{
    let base = base_name(program);
    let git = git_floor(args);
    if raises_privileges(base) {
        Some(GateReason::PrivilegeEscalation)
    } else if reaches_out(base) {
        Some(GateReason::Network)
    } else if installs(base) {
        Some(GateReason::PackageInstall)
    } else if removes(base) {
        Some(GateReason::Delete)
    } else if is_opaque(base) {
        Some(GateReason::OpaqueCommand)
    } else if base == "git"@ && git is Some {
        git
    } else if manages_packages(base) && exists|i: int|
        0 <= i < args.len() && changes_packages(#[trigger] lower_all(args)[i]) {
        Some(GateReason::PackageInstall)
    } else if is_shell(base) {
        match payload(args) {
            None => None,
            Some(script) => {
                proof {
                    lemma_payload_is_less(program, args);
                    lemma_total_split(script, split::Cut::Any(";\n|&()`{}"@));
                }
                let among = floor_among(segments(script));
                if among is Some {
                    among
                } else if redirects(script) {
                    Some(GateReason::ShellRedirect)
                } else if text::occurs(script, "$("@) || script.contains('`') {
                    Some(GateReason::OpaqueCommand)
                } else {
                    None
                }
            },
        }
    } else {
        None
    }
}

/// What puts the first floor command among the segments of a script there.
pub open spec fn floor_among(segs: Seq<Seq<char>>) -> Option<GateReason>
    decreases total(segs), 1nat, segs.len(),
{
    if segs.len() == 0 {
        None
    } else {
        let c = command_of(segs[0]);
        proof {
            lemma_total_command(segs[0]);
        }
        if c.len() > 0 {
            proof {
                assert(total(c) == c[0].len() + total(c.drop_first()));
            }
            let r = floor(c[0], c.drop_first());
            if r is Some {
                r
            } else {
                floor_among(segs.drop_first())
            }
        } else {
            floor_among(segs.drop_first())
        }
    }
}

// ------------------------------------------------------- less text at every step

proof fn lemma_total_take(v: Seq<Seq<char>>, i: int)
    requires
        0 <= i < v.len(),
    ensures
        v[i].len() <= total(v),
    decreases v.len(),
{
    if i > 0 {
        lemma_total_take(v.drop_first(), i - 1);
    }
}

/// The script is shorter than the command that carries it.
pub proof fn lemma_payload_is_less(program: Seq<char>, args: Seq<Seq<char>>)
    requires
        is_shell(base_name(program)),
    ensures
        payload(args) matches Some(s) ==> s.len() < program.len() + total(args),
{
    lemma_shell_is_not_empty(program);
    lemma_payload_total(args);
}

proof fn lemma_payload_total(args: Seq<Seq<char>>)
    ensures
        payload(args) matches Some(s) ==> s.len() <= total(args),
    decreases args.len(),
{
    if args.len() > 0 {
        if carries_script(args[0]) {
            if args.len() > 1 {
                lemma_total_take(args, 1);
            }
        } else {
            lemma_payload_total(args.drop_first());
        }
    }
}

proof fn lemma_shell_is_not_empty(program: Seq<char>)
    requires
        is_shell(base_name(program)),
    ensures
        program.len() > 0,
{
    reveal_strlit("sh");
    reveal_strlit("bash");
    reveal_strlit("zsh");
    reveal_strlit("dash");
    reveal_strlit("ksh");
    reveal_strlit("fish");
    assert(base_name(program).len() > 0);
    if program.len() == 0 {
        let at = split::Cut::Any("/"@);
        split::lemma_first_cut_is(program, at, 0);
        let pieces = split::split(program, at);
        assert(pieces =~= seq![program]);
        assert(pieces.drop_first() =~= seq![]);
        assert(paths::comps_of(pieces.drop_first()) =~= seq![]);
        assert(paths::comps_of(pieces) =~= seq![]);
        reveal_strlit(".");
        assert("."@.len() == 1);
        assert(paths::comps(program) =~= seq![]);
    }
}

/// The pieces of a text hold no more than the text.
pub proof fn lemma_total_split(s: Seq<char>, at: split::Cut)
    ensures
        total(split::split(s, at)) <= s.len(),
    decreases s.len(),
{
    split::lemma_first_cut(s, at);
    let k = split::first_cut(s, at);
    let v = split::split(s, at);
    if k >= s.len() {
        assert(v =~= seq![s]);
        assert(v.drop_first() =~= seq![]);
        assert(total(v.drop_first()) == 0);
    } else {
        lemma_total_split(s.skip(k + 1), at);
        assert(v.drop_first() =~= split::split(s.skip(k + 1), at));
    }
}

proof fn lemma_total_solid(v: Seq<Seq<char>>)
    ensures
        total(split::solid(v)) <= total(v),
    decreases v.len(),
{
    if v.len() > 0 {
        lemma_total_solid(v.drop_first());
        if v[0].len() > 0 {
            let s = split::solid(v);
            assert(s.drop_first() =~= split::solid(v.drop_first()));
            assert(s[0] == v[0]);
        }
    }
}

proof fn lemma_strip_start_len(s: Seq<char>, set: Seq<char>)
    ensures
        text::strip_start(s, set).len() <= s.len(),
    decreases s.len(),
{
    if s.len() > 0 && set.contains(s[0]) {
        lemma_strip_start_len(s.drop_first(), set);
    }
}

proof fn lemma_strip_end_len(s: Seq<char>, set: Seq<char>)
    ensures
        text::strip_end(s, set).len() <= s.len(),
    decreases s.len(),
{
    if s.len() > 0 && set.contains(s.last()) {
        lemma_strip_end_len(s.drop_last(), set);
    }
}

proof fn lemma_total_stripped(v: Seq<Seq<char>>, set: Seq<char>)
    ensures
        total(v.map_values(|w: Seq<char>| text::strip_both(w, set))) <= total(v),
    decreases v.len(),
{
    let f = |w: Seq<char>| text::strip_both(w, set);
    if v.len() > 0 {
        lemma_total_stripped(v.drop_first(), set);
        lemma_strip_start_len(v[0], set);
        lemma_strip_end_len(text::strip_start(v[0], set), set);
        assert(v.map_values(f).drop_first() =~= v.drop_first().map_values(f));
        assert(v.map_values(f)[0] == text::strip_both(v[0], set));
    }
}

proof fn lemma_total_from_program(v: Seq<Seq<char>>)
    ensures
        total(from_program(v)) <= total(v),
    decreases v.len(),
{
    if v.len() > 0 && (v[0].contains('=') || is_transparent(text::lower(v[0]))) {
        lemma_total_from_program(v.drop_first());
    }
}

/// A command holds no more than its segment.
pub proof fn lemma_total_command(segment: Seq<char>)
    ensures
        total(command_of(segment)) <= segment.len(),
{
    lemma_total_split(segment, split::Cut::White);
    lemma_total_solid(split::split(segment, split::Cut::White));
    lemma_total_stripped(split::words(segment), "'\""@);
    lemma_total_from_program(bare_words(segment));
}

// -------------------------------------------------------------------- judging

fn program_base(program: &str) -> (v: Vec<char>)
    ensures
        v@ == base_name(program@),
{
    let path = FilePath::new(program);
    match path.file_name() {
        Some(n) => {
            let chars = chars_of(n.as_str());
            lowered(chars.as_slice())
        },
        None => {
            let chars = chars_of(program);
            lowered(chars.as_slice())
        },
    }
}

fn lowered_words(args: &[String]) -> (v: Vec<Vec<char>>)
    ensures
        v@.len() == args@.len(),
        forall|i: int| 0 <= i < v@.len() ==> (#[trigger] v@[i])@ == lower_all(text::texts(args@))[i],
{
    let mut v: Vec<Vec<char>> = Vec::new();
    let mut i: usize = 0;
    while i < args.len()
        invariant
            i <= args.len(),
            v@.len() == i,
            forall|j: int| 0 <= j < i ==> (#[trigger] v@[j])@ == lower_all(text::texts(args@))[j],
        decreases args.len() - i,
    {
        let chars = chars_of(args[i].as_str());
        v.push(lowered(chars.as_slice()));
        i = i + 1;
    }
    v
}

/// The place of the subcommand among the words, in lower case.
fn git_subcommand(args: &[Vec<char>]) -> (r: Option<usize>)
    ensures
        ({
            let words = args@.map_values(|w: Vec<char>| w@);
            match r {
                Some(i) => i < args.len() && subcommand(words) == Some(words[i as int]),
                None => subcommand(words) is None,
            }
        }),
{
    let ghost words = args@.map_values(|w: Vec<char>| w@);
    let mut i: usize = 0;
    assert(words.skip(0) =~= words);
    while i < args.len()
        invariant
            i <= args.len(),
            words == args@.map_values(|w: Vec<char>| w@),
            subcommand(words.skip(i as int)) == subcommand(words),
        decreases args.len() - i,
    {
        let a = args[i].as_slice();
        assert(words.skip(i as int)[0] == a@);
        assert(words.skip(i as int).drop_first() =~= words.skip(i + 1));
        if !begins(a, "-") {
            return Some(i);
        }
        if git_flag_takes_value(a) && i + 1 < args.len() {
            assert(words.skip(i as int).skip(2) =~= words.skip(i + 2));
            i = i + 2;
        } else {
            i = i + 1;
        }
    }
    assert(words.skip(i as int) =~= seq![]);
    None
}

fn any_destructive(args: &[String]) -> (r: bool)
    ensures
        r == exists|i: int| 0 <= i < args@.len() && is_destructive(#[trigger] text::texts(args@)[i]),
{
    let mut i: usize = 0;
    while i < args.len()
        invariant
            i <= args.len(),
            forall|j: int| 0 <= j < i ==> !is_destructive(#[trigger] text::texts(args@)[j]),
        decreases args.len() - i,
    {
        let chars = chars_of(args[i].as_str());
        assert(text::texts(args@)[i as int] == chars@);
        if git_destructive_flag(chars.as_slice()) {
            return true;
        }
        i = i + 1;
    }
    false
}

fn git_category(args: &[String]) -> (r: Option<GateReason>)
    ensures
        r == git_floor(text::texts(args@)),
{
    let words = lowered_words(args);
    assert(words@.map_values(|w: Vec<char>| w@) =~= lower_all(text::texts(args@)));
    match git_subcommand(words.as_slice()) {
        None => None,
        Some(i) => {
            let sub = words[i].as_slice();
            if git_remote(sub) {
                Some(GateReason::RemoteRepository)
            } else if git_rewrite(sub) {
                Some(GateReason::RepositoryRewrite)
            } else if (reads(sub, "branch") || reads(sub, "tag")) && any_destructive(args) {
                Some(GateReason::RepositoryRewrite)
            } else {
                None
            }
        },
    }
}

fn any_package_change(args: &[String]) -> (r: bool)
    ensures
        r == exists|i: int|
            0 <= i < args@.len() && changes_packages(#[trigger] lower_all(text::texts(args@))[i]),
{
    let words = lowered_words(args);
    let mut i: usize = 0;
    while i < words.len()
        invariant
            i <= words.len(),
            words@.len() == args@.len(),
            forall|j: int| 0 <= j < words@.len() ==> (#[trigger] words@[j])@ == lower_all(text::texts(args@))[j],
            forall|j: int| 0 <= j < i ==> !changes_packages(#[trigger] lower_all(text::texts(args@))[j]),
        decreases words.len() - i,
    {
        assert(words@[i as int]@ == lower_all(text::texts(args@))[i as int]);
        if is_package_change(words[i].as_slice()) {
            return true;
        }
        i = i + 1;
    }
    false
}

/// Whether a program is a shell, by its name.
pub fn is_shell_name(program: &str) -> (r: bool)
    ensures
        r == is_shell(base_name(program@)),
{
    let base = program_base(program);
    is_shell_program(base.as_slice())
}

/// Whether a flag of a shell says that the next word is the script.
pub fn is_script_flag(flag: &str) -> (r: bool)
    ensures
        r == carries_script(flag@),
{
    let chars = chars_of(flag);
    let a = chars.as_slice();
    begins(a, "-") && !begins(a, "--") && has_char(a, 'c')
}

/// The script a shell would run, by its place among the arguments.
fn shell_payload(args: &[String]) -> (r: Option<usize>)
    ensures
        match r {
            Some(i) => i < args.len() && payload(text::texts(args@)) == Some(args@[i as int]@),
            None => payload(text::texts(args@)) is None,
        },
{
    let ghost words = text::texts(args@);
    let mut i: usize = 0;
    assert(words.skip(0) =~= words);
    while i < args.len()
        invariant
            i <= args.len(),
            words == text::texts(args@),
            payload(words.skip(i as int)) == payload(words),
        decreases args.len() - i,
    {
        assert(words.skip(i as int)[0] == args@[i as int]@);
        assert(words.skip(i as int).drop_first() =~= words.skip(i + 1));
        if is_script_flag(args[i].as_str()) {
            if i + 1 < args.len() {
                assert(words.skip(i as int)[1] == args@[i + 1]@);
                return Some(i + 1);
            }
            return None;
        }
        i = i + 1;
    }
    None
}

fn writes_a_file(script: &[char]) -> (r: bool)
    ensures
        r == redirects(script@),
{
    let mut i: usize = 0;
    while i < script.len()
        invariant
            i <= script.len(),
            forall|j: int|
                0 <= j < i ==> !(#[trigger] script@[j] == '>' && !(j + 1 < script@.len() && script@[j + 1] == '&')),
        decreases script.len() - i,
    {
        if script[i] == '>' && !(i + 1 < script.len() && script[i + 1] == '&') {
            return true;
        }
        i = i + 1;
    }
    false
}

/// Whether a word stands in front of the program.
fn is_dressing(w: &[char]) -> (r: bool)
    ensures
        r == (w@.contains('=') || is_transparent(text::lower(w@))),
{
    let low = lowered(w);
    has_char(w, '=') || is_transparent_word(low.as_slice())
}

/// The program of a segment and its arguments.
fn command_words(segment: &[char]) -> (v: Vec<String>)
    ensures
        text::texts(v@) == command_of(segment@),
{
    let words = split_words(segment);
    let ghost bare = bare_words(segment@);
    let ghost p = text::pieces(words@);
    let mut i: usize = 0;
    assert(bare.skip(0) =~= bare);
    while i < words.len() && is_dressing(stripped_both(words[i], "'\""))
        invariant
            i <= words.len(),
            p == text::pieces(words@),
            p == split::words(segment@),
            bare == bare_words(segment@),
            from_program(bare.skip(i as int)) == from_program(bare),
        decreases words.len() - i,
    {
        assert(p[i as int] == words@[i as int]@);
        assert(bare.skip(i as int)[0] == text::strip_both(p[i as int], "'\""@));
        assert(bare.skip(i as int).drop_first() =~= bare.skip(i + 1));
        i = i + 1;
    }
    proof {
        assert(p.len() == words@.len());
        if i < words.len() {
            assert(p[i as int] == words@[i as int]@);
            assert(bare.skip(i as int)[0] == text::strip_both(p[i as int], "'\""@));
        }
    }
    let ghost rest = bare.skip(i as int);
    let mut v: Vec<String> = Vec::new();
    let ghost start = i as int;
    assert(text::texts(v@) =~= rest.take(0));
    while i < words.len()
        invariant
            0 <= start <= i <= words.len(),
            p == text::pieces(words@),
            p == split::words(segment@),
            p.len() == words@.len(),
            bare == bare_words(segment@),
            rest == bare.skip(start),
            text::texts(v@) == rest.take(i - start),
        decreases words.len() - i,
    {
        let w = stripped_both(words[i], "'\"");
        assert(p[i as int] == words@[i as int]@);
        assert(rest[i - start] == w@);
        let s = string_of(w);
        proof {
            text::lemma_texts_push(v@, s);
        }
        v.push(s);
        i = i + 1;
        assert(rest.take(i - start) =~= rest.take(i - 1 - start).push(rest[i - 1 - start]));
    }
    assert(rest.take(i - start) =~= rest);
    v
}

/// What puts a program with its arguments on the floor.
pub fn floor_category(program: &str, args: &[String]) -> (r: Option<GateReason>)
    ensures
        r == floor(program@, text::texts(args@)),
    decreases program@.len() + total(text::texts(args@)), 0nat, 0nat,
{
    let base_chars = program_base(program);
    let base = base_chars.as_slice();
    if is_privileged(base) {
        return Some(GateReason::PrivilegeEscalation);
    }
    if is_network(base) {
        return Some(GateReason::Network);
    }
    if is_installer(base) {
        return Some(GateReason::PackageInstall);
    }
    if is_remover(base) {
        return Some(GateReason::Delete);
    }
    if is_opaque_program(base) {
        return Some(GateReason::OpaqueCommand);
    }
    if reads(base, "git") {
        if let Some(reason) = git_category(args) {
            return Some(reason);
        }
    }
    if is_package_manager(base) && any_package_change(args) {
        return Some(GateReason::PackageInstall);
    }
    if !is_shell_program(base) {
        return None;
    }
    match shell_payload(args) {
        None => None,
        Some(i) => {
            let script = chars_of(args[i].as_str());
            proof {
                lemma_payload_is_less(program@, text::texts(args@));
            }
            scan_script(script.as_slice())
        },
    }
}

/// Every command in a script, judged by the same floor as a bare program.
fn scan_script(script: &[char]) -> (r: Option<GateReason>)
    ensures
        r == ({
            let among = floor_among(segments(script@));
            if among is Some {
                among
            } else if redirects(script@) {
                Some(GateReason::ShellRedirect)
            } else if text::occurs(script@, "$("@) || script@.contains('`') {
                Some(GateReason::OpaqueCommand)
            } else {
                None
            }
        }),
    decreases script@.len(), 2nat, 0nat,
{
    let segs = split_any(script, ";\n|&()`{}");
    let ghost p = text::pieces(segs@);
    proof {
        lemma_total_split(script@, split::Cut::Any(";\n|&()`{}"@));
    }
    let mut i: usize = 0;
    assert(p.skip(0) =~= p);
    while i < segs.len()
        invariant
            i <= segs.len(),
            p == text::pieces(segs@),
            p == segments(script@),
            total(p.skip(i as int)) <= script@.len(),
            floor_among(p.skip(i as int)) == floor_among(p),
        decreases segs.len() - i,
    {
        assert(p.skip(i as int)[0] == segs@[i as int]@);
        assert(p.skip(i as int).drop_first() =~= p.skip(i + 1));
        let words = command_words(segs[i]);
        proof {
            lemma_total_command(segs@[i as int]@);
        }
        if words.len() > 0 {
            let rest = slice_subrange(words.as_slice(), 1, words.len());
            let ghost c = text::texts(words@);
            assert(text::texts(rest@) =~= c.drop_first());
            assert(total(c) == c[0].len() + total(c.drop_first()));
            let r = floor_category(words[0].as_str(), rest);
            if r.is_some() {
                return r;
            }
        }
        i = i + 1;
    }
    assert(p.skip(i as int) =~= seq![]);
    if writes_a_file(script) {
        return Some(GateReason::ShellRedirect);
    }
    if mentions(script, "$(") || has_char(script, '`') {
        return Some(GateReason::OpaqueCommand);
    }
    None
}

// ------------------------------------------------------------------------ laws

/// Whether the command of a segment is on the floor by itself.
pub open spec fn is_floor_segment(segment: Seq<char>) -> bool {
    let c = command_of(segment);
    c.len() > 0 && floor(c[0], c.drop_first()) is Some
}

/// A script is on the floor for its commands exactly when one of them is.
pub proof fn law_one_floor_command_is_enough(segs: Seq<Seq<char>>)
    ensures
        floor_among(segs) is Some == exists|i: int| 0 <= i < segs.len() && is_floor_segment(#[trigger] segs[i]),
    decreases segs.len(),
{
    if segs.len() > 0 {
        let rest = segs.drop_first();
        law_one_floor_command_is_enough(rest);
        if is_floor_segment(segs[0]) {
            assert(floor_among(segs) is Some);
        } else {
            assert(floor_among(segs) == floor_among(rest));
            if floor_among(rest) is Some {
                let i = choose|i: int| 0 <= i < rest.len() && is_floor_segment(#[trigger] rest[i]);
                assert(segs[i + 1] == rest[i]);
            }
            if exists|i: int| 0 <= i < segs.len() && is_floor_segment(#[trigger] segs[i]) {
                let i = choose|i: int| 0 <= i < segs.len() && is_floor_segment(#[trigger] segs[i]);
                assert(i > 0);
                assert(rest[i - 1] == segs[i]);
            }
        }
    }
}

/// Whatever shell it is spelled with, and whatever it is joined to, a floor
/// command in a script puts the whole command on the floor.
pub proof fn law_no_shell_hides_a_floor_command(
    program: Seq<char>,
    args: Seq<Seq<char>>,
    script: Seq<char>,
    i: int,
)
    requires
        is_shell(base_name(program)),
        payload(args) == Some(script),
        0 <= i < segments(script).len(),
        is_floor_segment(segments(script)[i]),
    ensures
        floor(program, args) is Some,
{
    law_one_floor_command_is_enough(segments(script));
    assert(floor_among(segments(script)) is Some);
}

/// The programs that are on the floor by their name, whatever they are called with
/// and wherever they lie: those that raise privileges, that reach out, that install,
/// that remove, and that hide what they run.
pub proof fn law_the_floor_is_these_programs(program: Seq<char>, args: Seq<Seq<char>>)
    ensures
        ({
            ||| base_name(program) == "sudo"@
            ||| base_name(program) == "su"@
            ||| base_name(program) == "doas"@
        }) ==> floor(program, args) == Some(GateReason::PrivilegeEscalation),
        ({
            ||| base_name(program) == "curl"@
            ||| base_name(program) == "wget"@
            ||| base_name(program) == "nc"@
            ||| base_name(program) == "ncat"@
            ||| base_name(program) == "netcat"@
            ||| base_name(program) == "ssh"@
            ||| base_name(program) == "scp"@
            ||| base_name(program) == "sftp"@
            ||| base_name(program) == "rsync"@
            ||| base_name(program) == "telnet"@
        }) ==> floor(program, args) == Some(GateReason::Network),
        ({
            ||| base_name(program) == "brew"@
            ||| base_name(program) == "apt"@
            ||| base_name(program) == "apt-get"@
            ||| base_name(program) == "yum"@
            ||| base_name(program) == "dnf"@
            ||| base_name(program) == "pacman"@
            ||| base_name(program) == "gem"@
            ||| base_name(program) == "pipx"@
        }) ==> floor(program, args) == Some(GateReason::PackageInstall),
        ({
            ||| base_name(program) == "rm"@
            ||| base_name(program) == "rmdir"@
            ||| base_name(program) == "unlink"@
            ||| base_name(program) == "shred"@
        }) ==> floor(program, args) == Some(GateReason::Delete),
        ({
            ||| base_name(program) == "eval"@
            ||| base_name(program) == "source"@
            ||| base_name(program) == "."@
        }) ==> floor(program, args) == Some(GateReason::OpaqueCommand),
{
    lemma_names_differ();
}

/// Each of the names means one thing.
proof fn lemma_names_differ()
    ensures
        !raises_privileges("curl"@),
        !raises_privileges("wget"@),
        !raises_privileges("nc"@),
        !raises_privileges("ncat"@),
        !raises_privileges("netcat"@),
        !raises_privileges("ssh"@),
        !raises_privileges("scp"@),
        !raises_privileges("sftp"@),
        !raises_privileges("rsync"@),
        !raises_privileges("telnet"@),
        !raises_privileges("brew"@),
        !raises_privileges("apt"@),
        !raises_privileges("apt-get"@),
        !raises_privileges("yum"@),
        !raises_privileges("dnf"@),
        !raises_privileges("pacman"@),
        !raises_privileges("gem"@),
        !raises_privileges("pipx"@),
        !reaches_out("brew"@),
        !reaches_out("apt"@),
        !reaches_out("apt-get"@),
        !reaches_out("yum"@),
        !reaches_out("dnf"@),
        !reaches_out("pacman"@),
        !reaches_out("gem"@),
        !reaches_out("pipx"@),
        !raises_privileges("rm"@),
        !raises_privileges("rmdir"@),
        !raises_privileges("unlink"@),
        !raises_privileges("shred"@),
        !reaches_out("rm"@),
        !reaches_out("rmdir"@),
        !reaches_out("unlink"@),
        !reaches_out("shred"@),
        !installs("rm"@),
        !installs("rmdir"@),
        !installs("unlink"@),
        !installs("shred"@),
        !raises_privileges("eval"@),
        !raises_privileges("source"@),
        !raises_privileges("."@),
        !reaches_out("eval"@),
        !reaches_out("source"@),
        !reaches_out("."@),
        !installs("eval"@),
        !installs("source"@),
        !installs("."@),
        !removes("eval"@),
        !removes("source"@),
        !removes("."@),
        !raises_privileges("git"@),
        !reaches_out("git"@),
        !installs("git"@),
        !removes("git"@),
        !is_opaque("git"@),
        !raises_privileges("npm"@),
        !reaches_out("npm"@),
        !installs("npm"@),
        !removes("npm"@),
        !is_opaque("npm"@),
        !raises_privileges("pnpm"@),
        !reaches_out("pnpm"@),
        !installs("pnpm"@),
        !removes("pnpm"@),
        !is_opaque("pnpm"@),
        !raises_privileges("yarn"@),
        !reaches_out("yarn"@),
        !installs("yarn"@),
        !removes("yarn"@),
        !is_opaque("yarn"@),
        !raises_privileges("pip"@),
        !reaches_out("pip"@),
        !installs("pip"@),
        !removes("pip"@),
        !is_opaque("pip"@),
        !raises_privileges("pip3"@),
        !reaches_out("pip3"@),
        !installs("pip3"@),
        !removes("pip3"@),
        !is_opaque("pip3"@),
        !raises_privileges("cargo"@),
        !reaches_out("cargo"@),
        !installs("cargo"@),
        !removes("cargo"@),
        !is_opaque("cargo"@),
        !raises_privileges("sh"@),
        !reaches_out("sh"@),
        !installs("sh"@),
        !removes("sh"@),
        !is_opaque("sh"@),
        !raises_privileges("bash"@),
        !reaches_out("bash"@),
        !installs("bash"@),
        !removes("bash"@),
        !is_opaque("bash"@),
        !raises_privileges("zsh"@),
        !reaches_out("zsh"@),
        !installs("zsh"@),
        !removes("zsh"@),
        !is_opaque("zsh"@),
        !raises_privileges("dash"@),
        !reaches_out("dash"@),
        !installs("dash"@),
        !removes("dash"@),
        !is_opaque("dash"@),
        !raises_privileges("ksh"@),
        !reaches_out("ksh"@),
        !installs("ksh"@),
        !removes("ksh"@),
        !is_opaque("ksh"@),
        !raises_privileges("fish"@),
        !reaches_out("fish"@),
        !installs("fish"@),
        !removes("fish"@),
        !is_opaque("fish"@),
        "npm"@ != "git"@,
        "pnpm"@ != "git"@,
        "yarn"@ != "git"@,
        "pip"@ != "git"@,
        "pip3"@ != "git"@,
        "cargo"@ != "git"@,
        "sh"@ != "git"@,
        "bash"@ != "git"@,
        "zsh"@ != "git"@,
        "dash"@ != "git"@,
        "ksh"@ != "git"@,
        "fish"@ != "git"@,
        !manages_packages("sh"@),
        !manages_packages("bash"@),
        !manages_packages("zsh"@),
        !manages_packages("dash"@),
        !manages_packages("ksh"@),
        !manages_packages("fish"@),
{
    reveal_strlit("sudo");
    reveal_strlit("su");
    reveal_strlit("doas");
    reveal_strlit("curl");
    reveal_strlit("wget");
    reveal_strlit("nc");
    reveal_strlit("ncat");
    reveal_strlit("netcat");
    reveal_strlit("ssh");
    reveal_strlit("scp");
    reveal_strlit("sftp");
    reveal_strlit("rsync");
    reveal_strlit("telnet");
    reveal_strlit("brew");
    reveal_strlit("apt");
    reveal_strlit("apt-get");
    reveal_strlit("yum");
    reveal_strlit("dnf");
    reveal_strlit("pacman");
    reveal_strlit("gem");
    reveal_strlit("pipx");
    reveal_strlit("rm");
    reveal_strlit("rmdir");
    reveal_strlit("unlink");
    reveal_strlit("shred");
    reveal_strlit("eval");
    reveal_strlit("source");
    reveal_strlit(".");
    reveal_strlit("npm");
    reveal_strlit("pnpm");
    reveal_strlit("yarn");
    reveal_strlit("pip");
    reveal_strlit("pip3");
    reveal_strlit("cargo");
    reveal_strlit("sh");
    reveal_strlit("bash");
    reveal_strlit("zsh");
    reveal_strlit("dash");
    reveal_strlit("ksh");
    reveal_strlit("fish");
    reveal_strlit("git");
    assert("sudo"@.len() == 4 && "sudo"@[0] == 's' && "sudo"@[1] == 'u' && "sudo"@[2] == 'd' && "sudo"@[3] == 'o');
    assert("su"@.len() == 2 && "su"@[0] == 's' && "su"@[1] == 'u');
    assert("doas"@.len() == 4 && "doas"@[0] == 'd' && "doas"@[1] == 'o' && "doas"@[2] == 'a' && "doas"@[3] == 's');
    assert("curl"@.len() == 4 && "curl"@[0] == 'c' && "curl"@[1] == 'u' && "curl"@[2] == 'r' && "curl"@[3] == 'l');
    assert("wget"@.len() == 4 && "wget"@[0] == 'w' && "wget"@[1] == 'g' && "wget"@[2] == 'e' && "wget"@[3] == 't');
    assert("nc"@.len() == 2 && "nc"@[0] == 'n' && "nc"@[1] == 'c');
    assert("ncat"@.len() == 4 && "ncat"@[0] == 'n' && "ncat"@[1] == 'c' && "ncat"@[2] == 'a' && "ncat"@[3] == 't');
    assert("netcat"@.len() == 6 && "netcat"@[0] == 'n' && "netcat"@[1] == 'e' && "netcat"@[2] == 't' && "netcat"@[3] == 'c' && "netcat"@[4] == 'a' && "netcat"@[5] == 't');
    assert("ssh"@.len() == 3 && "ssh"@[0] == 's' && "ssh"@[1] == 's' && "ssh"@[2] == 'h');
    assert("scp"@.len() == 3 && "scp"@[0] == 's' && "scp"@[1] == 'c' && "scp"@[2] == 'p');
    assert("sftp"@.len() == 4 && "sftp"@[0] == 's' && "sftp"@[1] == 'f' && "sftp"@[2] == 't' && "sftp"@[3] == 'p');
    assert("rsync"@.len() == 5 && "rsync"@[0] == 'r' && "rsync"@[1] == 's' && "rsync"@[2] == 'y' && "rsync"@[3] == 'n' && "rsync"@[4] == 'c');
    assert("telnet"@.len() == 6 && "telnet"@[0] == 't' && "telnet"@[1] == 'e' && "telnet"@[2] == 'l' && "telnet"@[3] == 'n' && "telnet"@[4] == 'e' && "telnet"@[5] == 't');
    assert("brew"@.len() == 4 && "brew"@[0] == 'b' && "brew"@[1] == 'r' && "brew"@[2] == 'e' && "brew"@[3] == 'w');
    assert("apt"@.len() == 3 && "apt"@[0] == 'a' && "apt"@[1] == 'p' && "apt"@[2] == 't');
    assert("apt-get"@.len() == 7 && "apt-get"@[0] == 'a' && "apt-get"@[1] == 'p' && "apt-get"@[2] == 't' && "apt-get"@[3] == '-' && "apt-get"@[4] == 'g' && "apt-get"@[5] == 'e' && "apt-get"@[6] == 't');
    assert("yum"@.len() == 3 && "yum"@[0] == 'y' && "yum"@[1] == 'u' && "yum"@[2] == 'm');
    assert("dnf"@.len() == 3 && "dnf"@[0] == 'd' && "dnf"@[1] == 'n' && "dnf"@[2] == 'f');
    assert("pacman"@.len() == 6 && "pacman"@[0] == 'p' && "pacman"@[1] == 'a' && "pacman"@[2] == 'c' && "pacman"@[3] == 'm' && "pacman"@[4] == 'a' && "pacman"@[5] == 'n');
    assert("gem"@.len() == 3 && "gem"@[0] == 'g' && "gem"@[1] == 'e' && "gem"@[2] == 'm');
    assert("pipx"@.len() == 4 && "pipx"@[0] == 'p' && "pipx"@[1] == 'i' && "pipx"@[2] == 'p' && "pipx"@[3] == 'x');
    assert("rm"@.len() == 2 && "rm"@[0] == 'r' && "rm"@[1] == 'm');
    assert("rmdir"@.len() == 5 && "rmdir"@[0] == 'r' && "rmdir"@[1] == 'm' && "rmdir"@[2] == 'd' && "rmdir"@[3] == 'i' && "rmdir"@[4] == 'r');
    assert("unlink"@.len() == 6 && "unlink"@[0] == 'u' && "unlink"@[1] == 'n' && "unlink"@[2] == 'l' && "unlink"@[3] == 'i' && "unlink"@[4] == 'n' && "unlink"@[5] == 'k');
    assert("shred"@.len() == 5 && "shred"@[0] == 's' && "shred"@[1] == 'h' && "shred"@[2] == 'r' && "shred"@[3] == 'e' && "shred"@[4] == 'd');
    assert("eval"@.len() == 4 && "eval"@[0] == 'e' && "eval"@[1] == 'v' && "eval"@[2] == 'a' && "eval"@[3] == 'l');
    assert("source"@.len() == 6 && "source"@[0] == 's' && "source"@[1] == 'o' && "source"@[2] == 'u' && "source"@[3] == 'r' && "source"@[4] == 'c' && "source"@[5] == 'e');
    assert("."@.len() == 1 && "."@[0] == '.');
    assert("npm"@.len() == 3 && "npm"@[0] == 'n' && "npm"@[1] == 'p' && "npm"@[2] == 'm');
    assert("pnpm"@.len() == 4 && "pnpm"@[0] == 'p' && "pnpm"@[1] == 'n' && "pnpm"@[2] == 'p' && "pnpm"@[3] == 'm');
    assert("yarn"@.len() == 4 && "yarn"@[0] == 'y' && "yarn"@[1] == 'a' && "yarn"@[2] == 'r' && "yarn"@[3] == 'n');
    assert("pip"@.len() == 3 && "pip"@[0] == 'p' && "pip"@[1] == 'i' && "pip"@[2] == 'p');
    assert("pip3"@.len() == 4 && "pip3"@[0] == 'p' && "pip3"@[1] == 'i' && "pip3"@[2] == 'p' && "pip3"@[3] == '3');
    assert("cargo"@.len() == 5 && "cargo"@[0] == 'c' && "cargo"@[1] == 'a' && "cargo"@[2] == 'r' && "cargo"@[3] == 'g' && "cargo"@[4] == 'o');
    assert("sh"@.len() == 2 && "sh"@[0] == 's' && "sh"@[1] == 'h');
    assert("bash"@.len() == 4 && "bash"@[0] == 'b' && "bash"@[1] == 'a' && "bash"@[2] == 's' && "bash"@[3] == 'h');
    assert("zsh"@.len() == 3 && "zsh"@[0] == 'z' && "zsh"@[1] == 's' && "zsh"@[2] == 'h');
    assert("dash"@.len() == 4 && "dash"@[0] == 'd' && "dash"@[1] == 'a' && "dash"@[2] == 's' && "dash"@[3] == 'h');
    assert("ksh"@.len() == 3 && "ksh"@[0] == 'k' && "ksh"@[1] == 's' && "ksh"@[2] == 'h');
    assert("fish"@.len() == 4 && "fish"@[0] == 'f' && "fish"@[1] == 'i' && "fish"@[2] == 's' && "fish"@[3] == 'h');
    assert("git"@.len() == 3 && "git"@[0] == 'g' && "git"@[1] == 'i' && "git"@[2] == 't');
}

/// A program of none of these names is on the floor only as git, as what manages
/// packages, or as a shell.
pub proof fn law_other_programs_are_not_on_the_floor(program: Seq<char>, args: Seq<Seq<char>>)
    requires
        base_name(program) != "sudo"@,
        base_name(program) != "su"@,
        base_name(program) != "doas"@,
        base_name(program) != "curl"@,
        base_name(program) != "wget"@,
        base_name(program) != "nc"@,
        base_name(program) != "ncat"@,
        base_name(program) != "netcat"@,
        base_name(program) != "ssh"@,
        base_name(program) != "scp"@,
        base_name(program) != "sftp"@,
        base_name(program) != "rsync"@,
        base_name(program) != "telnet"@,
        base_name(program) != "brew"@,
        base_name(program) != "apt"@,
        base_name(program) != "apt-get"@,
        base_name(program) != "yum"@,
        base_name(program) != "dnf"@,
        base_name(program) != "pacman"@,
        base_name(program) != "gem"@,
        base_name(program) != "pipx"@,
        base_name(program) != "rm"@,
        base_name(program) != "rmdir"@,
        base_name(program) != "unlink"@,
        base_name(program) != "shred"@,
        base_name(program) != "eval"@,
        base_name(program) != "source"@,
        base_name(program) != "."@,
        base_name(program) != "git"@,
        base_name(program) != "npm"@,
        base_name(program) != "pnpm"@,
        base_name(program) != "yarn"@,
        base_name(program) != "pip"@,
        base_name(program) != "pip3"@,
        base_name(program) != "cargo"@,
        base_name(program) != "sh"@,
        base_name(program) != "bash"@,
        base_name(program) != "zsh"@,
        base_name(program) != "dash"@,
        base_name(program) != "ksh"@,
        base_name(program) != "fish"@,
    ensures
        floor(program, args) is None,
{
}

/// What git is on the floor for goes by its subcommand: those that reach another
/// repository, those that rewrite the tree or the history, and the deletion or the
/// forcing of a branch or a tag. For anything else it is not.
pub proof fn law_git_is_judged_by_its_subcommand(program: Seq<char>, args: Seq<Seq<char>>, sub: Seq<char>)
    requires
        base_name(program) == "git"@,
        subcommand(lower_all(args)) == Some(sub),
    ensures
        ({
            let remote = {
                ||| sub == "push"@
                ||| sub == "pull"@
                ||| sub == "fetch"@
                ||| sub == "clone"@
                ||| sub == "remote"@
                ||| sub == "submodule"@
                ||| sub == "archive"@
            };
            let rewriting = {
                ||| sub == "reset"@
                ||| sub == "checkout"@
                ||| sub == "restore"@
                ||| sub == "switch"@
                ||| sub == "clean"@
                ||| sub == "stash"@
                ||| sub == "update-ref"@
                ||| sub == "rebase"@
                ||| sub == "filter-branch"@
                ||| sub == "reflog"@
                ||| sub == "gc"@
            };
            let destructive = exists|i: int| 0 <= i < args.len() && is_destructive(#[trigger] args[i]);
            let marked = sub == "branch"@ || sub == "tag"@;
            &&& remote ==> floor(program, args) == Some(GateReason::RemoteRepository)
            &&& !remote && rewriting ==> floor(program, args) == Some(GateReason::RepositoryRewrite)
            &&& !remote && marked && destructive ==> floor(program, args) == Some(GateReason::RepositoryRewrite)
            &&& !remote && !rewriting && !(marked && destructive) ==> floor(program, args) is None
        }),
{
    lemma_names_differ();
    lemma_git_is_no_other();
}

proof fn lemma_git_is_no_other()
    ensures
        !manages_packages("git"@),
        !is_shell("git"@),
{
    lemma_names_differ();
}

/// What forces or deletes.
pub proof fn law_what_is_destructive(flag: Seq<char>)
    ensures
        is_destructive(flag) <==> ({
            ||| flag == "-d"@
            ||| flag == "-D"@
            ||| flag == "--delete"@
            ||| flag == "-f"@
            ||| flag == "--force"@
        }),
{
}

/// The subcommand is the first word that is no option: an option is passed over,
/// and one that takes its value apart is passed over with it.
pub proof fn law_the_subcommand_comes_after_the_options(args: Seq<Seq<char>>)
    requires
        args.len() > 0,
    ensures
        !text::starts_with(args[0], "-"@) ==> subcommand(args) == Some(args[0]),
        text::starts_with(args[0], "-"@) && args.len() > 1 && (({
            ||| args[0] == "-c"@
            ||| args[0] == "--git-dir"@
            ||| args[0] == "--work-tree"@
            ||| args[0] == "--namespace"@
        })) ==> subcommand(args) == subcommand(args.skip(2)),
        text::starts_with(args[0], "-"@) && !(({
            ||| args[0] == "-c"@
            ||| args[0] == "--git-dir"@
            ||| args[0] == "--work-tree"@
            ||| args[0] == "--namespace"@
        })) ==> subcommand(args) == subcommand(args.skip(1)),
{
    assert(args.skip(1) =~= args.drop_first());
}

/// What manages packages is on the floor exactly where it is told to change some.
pub proof fn law_packages_are_not_changed_unasked(program: Seq<char>, args: Seq<Seq<char>>)
    requires
        ({
            ||| base_name(program) == "npm"@
            ||| base_name(program) == "pnpm"@
            ||| base_name(program) == "yarn"@
            ||| base_name(program) == "pip"@
            ||| base_name(program) == "pip3"@
            ||| base_name(program) == "cargo"@
        }),
    ensures
        ({
            let changing = exists|i: int|
                ({
                    &&& 0 <= i < args.len()
                    &&& ({
                        let w = text::lower(#[trigger] args[i]);
                        ||| w == "install"@
                            ||| w == "add"@
                            ||| w == "publish"@
                            ||| w == "uninstall"@
                            ||| w == "remove"@
                    })
                });
            &&& changing ==> floor(program, args) == Some(GateReason::PackageInstall)
            &&& !changing ==> floor(program, args) is None
        }),
{
    lemma_names_differ();
    let lower = lower_all(args);
    if exists|i: int| 0 <= i < args.len() && changes_packages(#[trigger] lower[i]) {
        let i = choose|i: int| 0 <= i < args.len() && changes_packages(#[trigger] lower[i]);
        assert(lower[i] == text::lower(args[i]));
    }
    assert forall|i: int| 0 <= i < args.len() implies #[trigger] text::lower(args[i]) == lower[i] by {}
    lemma_manager_is_no_shell();
}

proof fn lemma_manager_is_no_shell()
    ensures
        !is_shell("npm"@),
        !is_shell("pnpm"@),
        !is_shell("yarn"@),
        !is_shell("pip"@),
        !is_shell("pip3"@),
        !is_shell("cargo"@),
{
    lemma_names_differ();
}

/// A shell that is given a script is on the floor exactly where one of the script's
/// commands is, or where it writes to a file, or where it runs what it puts together
/// first; one that is given none is not.
pub proof fn law_a_shell_is_judged_by_its_script(program: Seq<char>, args: Seq<Seq<char>>)
    requires
        ({
            ||| base_name(program) == "sh"@
            ||| base_name(program) == "bash"@
            ||| base_name(program) == "zsh"@
            ||| base_name(program) == "dash"@
            ||| base_name(program) == "ksh"@
            ||| base_name(program) == "fish"@
        }),
    ensures
        payload(args) is None ==> floor(program, args) is None,
        payload(args) matches Some(script) ==> {
            let commands = exists|i: int|
                0 <= i < segments(script).len() && is_floor_segment(#[trigger] segments(script)[i]);
            let writes = exists|i: int|
                0 <= i < script.len() && #[trigger] script[i] == '>' && !(i + 1 < script.len() && script[i + 1] == '&');
            let builds = text::occurs(script, "$("@) || script.contains('`');
            &&& floor(program, args) is Some <==> commands || writes || builds
            &&& !commands && writes ==> floor(program, args) == Some(GateReason::ShellRedirect)
            &&& !commands && !writes && builds ==> floor(program, args) == Some(GateReason::OpaqueCommand)
        },
{
    lemma_names_differ();
    if let Some(script) = payload(args) {
        law_one_floor_command_is_enough(segments(script));
    }
}

/// The script of a shell is the word after the first option that says so: one that
/// begins with a single dash and has a `c` in it.
pub proof fn law_the_script_follows_its_option(args: Seq<Seq<char>>, k: int)
    requires
        0 <= k < args.len() - 1,
        carries_script(args[k]),
        forall|j: int| 0 <= j < k ==> !carries_script(#[trigger] args[j]),
    ensures
        payload(args) == Some(args[k + 1]),
    decreases k,
{
    if k > 0 {
        let rest = args.drop_first();
        assert(!carries_script(args[0]));
        assert(rest[k - 1] == args[k]);
        assert forall|j: int| 0 <= j < k - 1 implies !carries_script(#[trigger] rest[j]) by {
            assert(rest[j] == args[j + 1]);
        }
        law_the_script_follows_its_option(rest, k - 1);
    }
}

/// The commands of a script are parted by semicolons, line ends, pipes, ampersands,
/// brackets, backquotes and braces.
pub proof fn law_the_commands_of_a_script_are_parted(a: Seq<char>, c: char, b: Seq<char>)
    requires
        c == ';' || c == '\n' || c == '|' || c == '&' || c == '(' || c == ')' || c == '`' || c == '{' || c == '}',
    ensures
        segments(a + seq![c] + b) == segments(a) + segments(b),
{
    reveal_strlit(";\n|&()`{}");
    let set = ";\n|&()`{}"@;
    assert(set[0] == ';' && set[1] == '\n' && set[2] == '|' && set[3] == '&' && set[4] == '(' && set[5] == ')'
        && set[6] == '`' && set[7] == '{' && set[8] == '}');
    assert(set.contains(c));
    split::law_a_cut_parts_the_pieces(a, c, b, split::Cut::Any(set));
}

/// The program of a command is its first word that sets no variable and only runs
/// what follows it.
pub proof fn law_wrappers_are_seen_through(words: Seq<Seq<char>>)
    requires
        words.len() > 0,
    ensures
        words[0].contains('=') || ({
            let w = text::lower(words[0]);
            ||| w == "env"@
                ||| w == "command"@
                ||| w == "nohup"@
                ||| w == "time"@
                ||| w == "nice"@
                ||| w == "stdbuf"@
                ||| w == "xargs"@
                ||| w == "exec"@
        }) ==> from_program(words) == from_program(words.skip(1)),
        !(words[0].contains('=') || ({
            let w = text::lower(words[0]);
            ||| w == "env"@
                ||| w == "command"@
                ||| w == "nohup"@
                ||| w == "time"@
                ||| w == "nice"@
                ||| w == "stdbuf"@
                ||| w == "xargs"@
                ||| w == "exec"@
        })) ==> from_program(words) == words,
{
    assert(words.skip(1) =~= words.drop_first());
}

/// A command is read without the quotation marks around its words.
pub proof fn law_quotes_hide_no_word(segment: Seq<char>, i: int)
    requires
        0 <= i < split::words(segment).len(),
    ensures
        bare_words(segment).len() == split::words(segment).len(),
        bare_words(segment)[i] == text::strip_both(split::words(segment)[i], "'\""@),
{
}

/// An option that carries a script begins with one dash and not two, and has a `c`.
pub proof fn law_what_carries_a_script(flag: Seq<char>)
    ensures
        carries_script(flag) <==> (flag.len() > 0 && flag[0] == '-' && !(flag.len() > 1 && flag[1] == '-')
            && flag.contains('c')),
{
    reveal_strlit("-");
    reveal_strlit("--");
    if flag.len() > 0 && flag[0] == '-' {
        assert(flag.take(1) =~= "-"@);
        assert(flag.subrange(0, 1) =~= "-"@);
    }
    if flag.len() > 1 && flag[0] == '-' && flag[1] == '-' {
        assert(flag.take(2) =~= "--"@);
        assert(flag.subrange(0, 2) =~= "--"@);
    }
    if text::starts_with(flag, "-"@) {
        assert(flag.subrange(0, 1)[0] == '-');
    }
    if text::starts_with(flag, "--"@) {
        assert(flag.subrange(0, 2)[1] == '-');
    }
}

} // verus!
