//! What is made of what tools print and of what models write: counts, diffs,
//! documents and short descriptions. No model touches any of it on the way.

use vstd::prelude::*;
use vstd::slice::slice_subrange;
use crate::digits;
use crate::digits::{parse_number, write_number, write_signed};
use crate::document::{Content, Document};
use crate::sandbox::{Call, ToolCall};
use crate::split;
use crate::split::{join_pieces, solid_pieces, split_at_last, split_lines, split_words, write_lines, Cutter};
use crate::text;
use crate::text::{
    begins, byte_length, chars_of, in_lower_case, push_chars, reads, replace_char, strip_prefix, trimmed, trimmed_start,
};

verus! {

// ---------------------------------------------------------------------------- diffs

/// Whether a line opens or closes a fence.
pub open spec fn is_fence(line: Seq<char>) -> bool {
    text::starts_with(text::trim_start(line), "```"@)
}

/// The lines that stand inside fences, where the first line stands inside one or
/// not.
pub open spec fn fenced(lines: Seq<Seq<char>>, inside: bool) -> Seq<Seq<char>>
    decreases lines.len(),
{
    if lines.len() == 0 {
        seq![]
    } else if is_fence(lines[0]) {
        fenced(lines.drop_first(), !inside)
    } else if inside {
        seq![lines[0]] + fenced(lines.drop_first(), inside)
    } else {
        fenced(lines.drop_first(), inside)
    }
}

/// Whether a diff begins at the line.
pub open spec fn opens_diff(line: Seq<char>) -> bool {
    text::starts_with(line, "diff --git"@) || text::starts_with(line, "--- "@)
}

/// The lines from the first one that a diff begins at, where there is one.
pub open spec fn from_diff(lines: Seq<Seq<char>>) -> Option<Seq<Seq<char>>>
    decreases lines.len(),
{
    if lines.len() == 0 {
        None
    } else if opens_diff(lines[0]) {
        Some(lines)
    } else {
        from_diff(lines.drop_first())
    }
}

/// The diff in a body: what is fenced, where that is not blank, and otherwise
/// all from the first line that a diff begins at.
pub open spec fn diff_in(body: Seq<char>) -> Seq<char> {
    let lines = split::lines(body);
    let inside = split::unlines(fenced(lines, false));
    if !text::is_blank(inside) {
        inside
    } else {
        split::join(
            match from_diff(lines) {
                Some(rest) => rest,
                None => lines,
            },
            "\n"@,
        ) + "\n"@
    }
}

/// Pulls the unified diff out of a Patch document body, whether the model
/// fenced it or not. Models fence code far more often than they are told not
/// to, and rejecting the document over punctuation would waste an attempt.
pub fn extract_diff(body: &str) -> (s: String)
    ensures
        s@ == diff_in(body@),
{
    let chars = chars_of(body);
    let lines = split_lines(chars.as_slice());
    let ghost all = text::pieces(lines@);
    let mut kept: Vec<&[char]> = Vec::new();
    let mut inside = false;
    let mut i: usize = 0;
    assert(all.skip(0) =~= all);
    assert(text::pieces(kept@) + fenced(all, false) =~= fenced(all, false));
    while i < lines.len()
        invariant
            i <= lines.len(),
            all == text::pieces(lines@),
            text::pieces(kept@) + fenced(all.skip(i as int), inside) == fenced(all, false),
        decreases lines.len() - i,
    {
        let ghost rest = all.skip(i as int);
        assert(rest[0] == lines@[i as int]@);
        assert(rest.drop_first() =~= all.skip(i + 1));
        if begins(trimmed_start(lines[i]), "```") {
            inside = !inside;
        } else if inside {
            let ghost before = kept@;
            kept.push(lines[i]);
            assert(text::pieces(kept@) =~= text::pieces(before).push(rest[0]));
            assert(text::pieces(kept@) + fenced(all.skip(i + 1), inside) =~= text::pieces(before) + fenced(
                rest,
                inside,
            ));
        }
        i = i + 1;
    }
    assert(text::pieces(kept@) =~= fenced(all, false));
    let fenced_text = write_lines(kept.as_slice());
    let fenced_chars = chars_of(fenced_text.as_str());
    if trimmed(fenced_chars.as_slice()).len() > 0 {
        return fenced_text;
    }
    let mut start: usize = 0;
    while start < lines.len() && !begins(lines[start], "diff --git") && !begins(lines[start], "--- ")
        invariant
            start <= lines.len(),
            all == text::pieces(lines@),
            from_diff(all.skip(start as int)) == from_diff(all),
        decreases lines.len() - start,
    {
        assert(all.skip(start as int)[0] == lines@[start as int]@);
        assert(all.skip(start as int).drop_first() =~= all.skip(start + 1));
        start = start + 1;
    }
    if start == lines.len() {
        start = 0;
    } else {
        assert(all.skip(start as int)[0] == lines@[start as int]@);
    }
    let rest = slice_subrange(lines.as_slice(), start, lines.len());
    assert(text::pieces(rest@) =~= all.skip(start as int));
    let mut s = join_pieces(rest, "\n");
    s.append("\n");
    s
}

// --------------------------------------------------------------------------- counts

/// Counts read out of a test runner's own output.
///
/// The exit code alone is not trustworthy: a shell pipeline reports the last
/// stage, so `... | tail` turns a failing suite into a success. Reading the
/// runner's own summary is what the numbers in `results` have to come from,
/// because branches are written against them.
#[derive(Debug, Clone, Copy, PartialEq, Eq, Structural)]
pub struct TestCounts {
    pub total: u32,
    pub failed: u32,
    pub conclusive: bool,
}

impl Default for TestCounts {
    fn default() -> (c: Self)
        ensures
            c == (TestCounts { total: 0, failed: 0, conclusive: false }),
    {
        TestCounts { total: 0, failed: 0, conclusive: false }
    }
}

/// Counts, as numbers.
pub struct Tally {
    pub total: nat,
    pub failed: nat,
    pub conclusive: bool,
}

impl View for TestCounts {
    type V = Tally;

    open spec fn view(&self) -> Tally {
        Tally { total: self.total as nat, failed: self.failed as nat, conclusive: self.conclusive }
    }
}

/// How many tests a line says were run.
pub open spec fn ran(t: Seq<char>) -> Option<nat> {
    match text::after_prefix(t, "Ran "@) {
        None => None,
        Some(rest) => if split::words(rest).len() == 0 {
            None
        } else {
            digits::number(split::words(rest)[0], u32::MAX as nat)
        },
    }
}

/// Whether a line says that all is well.
pub open spec fn says_ok(t: Seq<char>) -> bool {
    t == "OK"@ || text::starts_with(t, "OK ("@)
}

/// The sum of the numbers among the pieces.
pub open spec fn summed(pieces: Seq<Seq<char>>) -> nat
    decreases pieces.len(),
{
    if pieces.len() == 0 {
        0
    } else {
        summed(pieces.drop_last()) + match digits::number(pieces.last(), u32::MAX as nat) {
            Some(n) => n,
            None => 0,
        }
    }
}

/// The sum of the numbers in a line.
pub open spec fn numbers_in(t: Seq<char>) -> nat {
    summed(split::solid(split::split(t, split::Cut::NonDigit)))
}

/// How many tests a line says failed, where it says that some did: at least one.
pub open spec fn failures(t: Seq<char>) -> nat {
    if numbers_in(t) == 0 {
        1
    } else {
        numbers_in(t)
    }
}

/// The counts after one more line.
pub open spec fn with_line(c: Tally, line: Seq<char>) -> Tally {
    let t = text::trim(line);
    let c1 = match ran(t) {
        Some(n) => Tally { total: n, conclusive: true, ..c },
        None => c,
    };
    let c2 = if says_ok(t) {
        Tally { failed: 0, conclusive: true, ..c1 }
    } else {
        c1
    };
    if text::starts_with(t, "FAILED"@) {
        Tally { failed: failures(t), conclusive: true, ..c2 }
    } else {
        c2
    }
}

/// The counts that the lines give.
pub open spec fn tallied(lines: Seq<Seq<char>>) -> Tally
    decreases lines.len(),
{
    if lines.len() == 0 {
        Tally { total: 0, failed: 0, conclusive: false }
    } else {
        with_line(tallied(lines.drop_last()), lines.last())
    }
}

/// Whether the failures that the lines speak of can be summed in 32 bits.
pub open spec fn is_countable(lines: Seq<Seq<char>>) -> bool {
    forall|i: int|
        0 <= i < lines.len() && text::starts_with(text::trim(#[trigger] lines[i]), "FAILED"@) ==> numbers_in(
            text::trim(lines[i]),
        ) <= u32::MAX
}

/// Sums the numbers in a line. Nothing comes out where the sum takes more than
/// 32 bits.
fn sum_numbers(t: &[char]) -> (r: Option<u32>)
    ensures
        match r {
            Some(n) => n == numbers_in(t@),
            None => numbers_in(t@) > u32::MAX,
        },
{
    let cutter = Cutter::NonDigit;
    let pieces = cutter.pieces_of(t);
    let solid = solid_pieces(pieces.as_slice());
    let ghost all = text::pieces(solid@);
    let mut sum: u32 = 0;
    let mut i: usize = 0;
    while i < solid.len()
        invariant
            i <= solid.len(),
            all == text::pieces(solid@),
            numbers_in(t@) == summed(all),
            sum == summed(all.take(i as int)),
        decreases solid.len() - i,
    {
        assert(all.take(i + 1).drop_last() =~= all.take(i as int));
        assert(all.take(i + 1).last() == solid@[i as int]@);
        proof {
            lemma_summed_grows(all, i + 1);
        }
        if let Some(n) = parse_number(solid[i], u32::MAX as u64) {
            match sum.checked_add(n as u32) {
                Some(more) => {
                    sum = more;
                },
                None => {
                    return None;
                },
            }
        }
        i = i + 1;
    }
    assert(all.take(i as int) =~= all);
    Some(sum)
}

proof fn lemma_summed_grows(all: Seq<Seq<char>>, k: int)
    requires
        0 <= k <= all.len(),
    ensures
        summed(all.take(k)) <= summed(all),
    decreases all.len() - k,
{
    if k < all.len() {
        lemma_summed_grows(all, k + 1);
        assert(all.take(k + 1).drop_last() =~= all.take(k));
    } else {
        assert(all.take(k) =~= all);
    }
}

/// Whether the failures that an output speaks of can be summed.
pub fn can_count(output: &str) -> (r: bool)
    ensures
        r == is_countable(split::lines(output@)),
{
    let chars = chars_of(output);
    let lines = split_lines(chars.as_slice());
    let ghost all = text::pieces(lines@);
    let mut i: usize = 0;
    while i < lines.len()
        invariant
            i <= lines.len(),
            all == text::pieces(lines@),
            is_countable(all.take(i as int)),
            all == split::lines(output@),
        decreases lines.len() - i,
    {
        assert(all[i as int] == lines@[i as int]@);
        let t = trimmed(lines[i]);
        if begins(t, "FAILED") && sum_numbers(t).is_none() {
            return false;
        }
        assert forall|j: int|
            0 <= j < i + 1 && text::starts_with(text::trim(#[trigger] all.take(i + 1)[j]), "FAILED"@) implies numbers_in(
            text::trim(all.take(i + 1)[j]),
        ) <= u32::MAX by {
            if j < i {
                assert(all.take(i + 1)[j] == all.take(i as int)[j]);
            }
        }
        i = i + 1;
    }
    assert(all.take(i as int) =~= all);
    true
}

/// Reads how many tests a line says were run.
fn read_ran(t: &[char]) -> (r: Option<u32>)
    ensures
        r is Some == ran(t@) is Some,
        r matches Some(n) ==> Some(n as nat) == ran(t@),
{
    match strip_prefix(t, "Ran ") {
        None => None,
        Some(rest) => {
            let words = split_words(rest);
            assert(text::pieces(words@).len() == words@.len());
            if words.len() == 0 {
                return None;
            }
            assert(text::pieces(words@)[0] == words@[0]@);
            match parse_number(words[0], u32::MAX as u64) {
                Some(n) => Some(n as u32),
                None => None,
            }
        },
    }
}

/// Counts the tests by a runner's own summary.
pub fn parse_test_output(output: &str) -> (c: TestCounts)
    requires
        is_countable(split::lines(output@)),
    ensures
        c@ == tallied(split::lines(output@)),
{
    let chars = chars_of(output);
    let lines = split_lines(chars.as_slice());
    let ghost all = text::pieces(lines@);
    let mut c = TestCounts::default();
    let mut i: usize = 0;
    while i < lines.len()
        invariant
            i <= lines.len(),
            all == text::pieces(lines@),
            is_countable(all),
            c@ == tallied(all.take(i as int)),
        decreases lines.len() - i,
    {
        assert(all.take(i + 1).drop_last() =~= all.take(i as int));
        assert(all.take(i + 1).last() == lines@[i as int]@);
        assert(all[i as int] == lines@[i as int]@);
        let t = trimmed(lines[i]);
        if let Some(n) = read_ran(t) {
            c.total = n;
            c.conclusive = true;
        }
        if reads(t, "OK") || begins(t, "OK (") {
            c.failed = 0;
            c.conclusive = true;
        }
        if begins(t, "FAILED") {
            c.conclusive = true;
            c.failed = match sum_numbers(t) {
                Some(n) => if n == 0 {
                    1
                } else {
                    n
                },
                None => 1,
            };
        }
        i = i + 1;
    }
    assert(all.take(i as int) =~= all);
    c
}

// ----------------------------------------------------------------------- documents

/// How many tests passed.
pub open spec fn passed(c: Tally) -> nat {
    if c.failed <= c.total {
        (c.total - c.failed) as nat
    } else {
        0
    }
}

/// The digest of a tool's document.
pub open spec fn tool_digest(command: Seq<char>, exit_code: int, c: Tally) -> Seq<char> {
    if c.conclusive {
        "`"@ + command + "` ran "@ + digits::decimal(c.total) + " tests, "@ + digits::decimal(c.failed)
            + " failed (exit "@ + digits::signed_decimal(exit_code) + ")."@
    } else {
        "`"@ + command + "` exited "@ + digits::signed_decimal(exit_code)
            + ". The output carries no test summary, so the counts below are not a verdict."@
    }
}

/// The results block of a tool's document: whether anything was measured, and
/// the numbers where it was. Zeros for a command that ran no tests would read as
/// "all green".
pub open spec fn tool_results(c: Tally) -> Seq<char> {
    if c.conclusive {
        "  conclusive: yes\n  total: "@ + digits::decimal(c.total) + "\n  passed: "@ + digits::decimal(passed(c))
            + "\n  failed: "@ + digits::decimal(c.failed) + "\n  baseline_total: 0\n  baseline_passed: 0\n"@
    } else {
        "  conclusive: no\n"@
    }
}

/// The first 200 lines of an output.
pub open spec fn output_head(output: Seq<char>) -> Seq<char> {
    let lines = split::lines(output);
    split::join(
        if lines.len() > 200 {
            lines.take(200)
        } else {
            lines
        },
        "\n"@,
    )
}

/// The document of a tool's result.
pub open spec fn tool_text(
    run_id: Seq<char>,
    node: Seq<char>,
    command: Seq<char>,
    exit_code: int,
    output: Seq<char>,
    created: Seq<char>,
) -> Seq<char> {
    let c = tallied(split::lines(output));
    "---\nartifact: TestReport\nrun: "@ + run_id + "\nnode: "@ + node
        + "\nattempt: 1\nmodel: harness\ncreated: "@ + created + "\ninputs: []\nresults:\n"@ + tool_results(c)
        + "digest: |\n  "@ + tool_digest(command, exit_code, c) + "\n---\n\n$ "@ + command + "\n\n"@ + output_head(
        output,
    ) + "\n"@
}

fn write_tool_results(c: &TestCounts) -> (s: String)
    ensures
        s@ == tool_results(c@),
{
    if !c.conclusive {
        return "  conclusive: no\n".to_owned();
    }
    let passed: u32 = if c.failed <= c.total {
        c.total - c.failed
    } else {
        0
    };
    let mut s = "  conclusive: yes\n  total: ".to_owned();
    s.append(write_number(c.total as u128).as_str());
    s.append("\n  passed: ");
    s.append(write_number(passed as u128).as_str());
    s.append("\n  failed: ");
    s.append(write_number(c.failed as u128).as_str());
    s.append("\n  baseline_total: 0\n  baseline_passed: 0\n");
    s
}

fn write_tool_digest(command: &str, exit_code: i32, c: &TestCounts) -> (s: String)
    ensures
        s@ == tool_digest(command@, exit_code as int, c@),
{
    let mut s = "`".to_owned();
    s.append(command);
    if c.conclusive {
        s.append("` ran ");
        s.append(write_number(c.total as u128).as_str());
        s.append(" tests, ");
        s.append(write_number(c.failed as u128).as_str());
        s.append(" failed (exit ");
        s.append(write_signed(exit_code).as_str());
        s.append(").");
    } else {
        s.append("` exited ");
        s.append(write_signed(exit_code).as_str());
        s.append(". The output carries no test summary, so the counts below are not a verdict.");
    }
    s
}

/// A tool result becomes a document without a model touching it, so nothing
/// can be embellished on the way in. `created` is the time.
pub fn tool_document(run_id: &str, node: &str, command: &str, exit_code: i32, output: &str, created: &str) -> (s: String)
    requires
        is_countable(split::lines(output@)),
    ensures
        s@ == tool_text(run_id@, node@, command@, exit_code as int, output@, created@),
{
    let counts = parse_test_output(output);
    let chars = chars_of(output);
    let lines = split_lines(chars.as_slice());
    let ghost all = text::pieces(lines@);
    let head = if lines.len() > 200 {
        let first = slice_subrange(lines.as_slice(), 0, 200);
        assert(text::pieces(first@) =~= all.take(200));
        join_pieces(first, "\n")
    } else {
        join_pieces(lines.as_slice(), "\n")
    };
    let mut s = "---\nartifact: TestReport\nrun: ".to_owned();
    s.append(run_id);
    s.append("\nnode: ");
    s.append(node);
    s.append("\nattempt: 1\nmodel: harness\ncreated: ");
    s.append(created);
    s.append("\ninputs: []\nresults:\n");
    s.append(write_tool_results(&counts).as_str());
    s.append("digest: |\n  ");
    s.append(write_tool_digest(command, exit_code, &counts).as_str());
    s.append("\n---\n\n$ ");
    s.append(command);
    s.append("\n\n");
    s.append(head.as_str());
    s.append("\n");
    s
}

/// The document that a run begins with: the task, as its owner set it.
pub open spec fn task_text(run_id: Seq<char>, task: Seq<char>) -> Seq<char> {
    "---\nartifact: Task\nrun: "@ + run_id
        + "\nnode: input\nattempt: 1\nmodel: human\ncreated: now\ninputs: []\nresults:\ndigest: |\n  "@ + (if task.len()
        > 300 {
        task.take(300)
    } else {
        task
    }) + "\n---\n\n"@ + task + "\n"@
}

/// The task is the run's first document. Everything downstream sees it the same
/// way it sees any other: in full if declared, as a digest otherwise.
pub fn task_document(run_id: &str, task: &str) -> (s: String)
    ensures
        s@ == task_text(run_id@, task@),
{
    let chars = chars_of(task);
    let mut digest = String::new();
    if chars.len() > 300 {
        push_chars(&mut digest, slice_subrange(chars.as_slice(), 0, 300));
        assert(digest@ =~= task@.take(300));
    } else {
        push_chars(&mut digest, chars.as_slice());
        assert(digest@ =~= task@);
    }
    let mut s = "---\nartifact: Task\nrun: ".to_owned();
    s.append(run_id);
    s.append("\nnode: input\nattempt: 1\nmodel: human\ncreated: now\ninputs: []\nresults:\ndigest: |\n  ");
    s.append(digest.as_str());
    s.append("\n---\n\n");
    s.append(task);
    s.append("\n");
    s
}

/// The name of a run: when it began, and what it is a run of, in lower case and
/// with hyphens.
pub fn run_name(stamp: &str, workflow: &str) -> (s: String)
    ensures
        s@ == stamp@ + "_"@ + text::with_char(text::lower_case(workflow@), ' ', '-'),
{
    let chars = chars_of(workflow);
    let lower = in_lower_case(chars.as_slice());
    let lower_chars = chars_of(lower.as_str());
    let mut s = stamp.to_owned();
    s.append("_");
    s.append(replace_char(lower_chars.as_slice(), ' ', '-').as_str());
    s
}

// --------------------------------------------------------------------- descriptions

/// How many lines a text has, in decimal.
pub open spec fn line_count(s: Seq<char>) -> Seq<char> {
    digits::decimal(split::lines(s).len())
}

/// A call in a few words.
pub open spec fn described(call: Call) -> Seq<char> {
    match call {
        Call::ReadFile { path } => "read "@ + path,
        Call::WriteFile { path, content } => "wrote "@ + path + " ("@ + line_count(content) + " lines)"@,
        Call::ReplaceInFile { path, replace, .. } => "replaced a fragment in "@ + path + " ("@ + line_count(replace)
            + " lines in)"@,
        Call::AppendToFile { path, content } => "appended "@ + line_count(content) + " lines to "@ + path,
        Call::DeleteFile { path } => "deleted "@ + path,
        Call::RunCommand { args, .. } => "ran "@ + (if args.len() == 0 {
            ""@
        } else {
            args.last()
        }),
        Call::ApplyPatch { .. } => "applied a patch"@,
        Call::Search { query, .. } => "searched for "@ + query,
    }
}

fn count_lines(s: &str) -> (r: String)
    ensures
        r@ == line_count(s@),
{
    let chars = chars_of(s);
    let lines = split_lines(chars.as_slice());
    assert(text::pieces(lines@).len() == lines@.len());
    write_number(lines.len() as u128)
}

/// A call in a few words, for the log of a run.
pub fn describe(call: &ToolCall) -> (s: String)
    ensures
        s@ == described(call@),
{
    match call {
        ToolCall::ReadFile { path } => {
            let mut s = "read ".to_owned();
            s.append(path.as_str());
            s
        },
        ToolCall::WriteFile { path, content } => {
            let mut s = "wrote ".to_owned();
            s.append(path.as_str());
            s.append(" (");
            s.append(count_lines(content.as_str()).as_str());
            s.append(" lines)");
            s
        },
        ToolCall::ReplaceInFile { path, replace, .. } => {
            let mut s = "replaced a fragment in ".to_owned();
            s.append(path.as_str());
            s.append(" (");
            s.append(count_lines(replace.as_str()).as_str());
            s.append(" lines in)");
            s
        },
        ToolCall::AppendToFile { path, content } => {
            let mut s = "appended ".to_owned();
            s.append(count_lines(content.as_str()).as_str());
            s.append(" lines to ");
            s.append(path.as_str());
            s
        },
        ToolCall::DeleteFile { path } => {
            let mut s = "deleted ".to_owned();
            s.append(path.as_str());
            s
        },
        ToolCall::RunCommand { args, .. } => {
            let mut s = "ran ".to_owned();
            assert(text::texts(args@).len() == args@.len());
            if args.len() == 0 {
                s.append("");
            } else {
                assert(text::texts(args@).last() == args@[args@.len() - 1]@);
                s.append(args[args.len() - 1].as_str());
            }
            s
        },
        ToolCall::ApplyPatch { .. } => "applied a patch".to_owned(),
        ToolCall::Search { query, .. } => {
            let mut s = "searched for ".to_owned();
            s.append(query.as_str());
            s
        },
    }
}

/// A text of at most `max` bytes, or its first `max` characters and how many more
/// bytes there are.
pub open spec fn truncated(s: Seq<char>, max: nat) -> Seq<char> {
    if text::byte_len(s) <= max {
        s
    } else {
        (if s.len() > max {
            s.take(max as int)
        } else {
            s
        }) + "\n[... "@ + digits::decimal((text::byte_len(s) - max) as nat) + " more characters]"@
    }
}

/// Shortens a text that is too long to hand on.
pub fn truncate(s: &str, max: usize) -> (r: String)
    ensures
        r@ == truncated(s@, max as nat),
{
    let chars = chars_of(s);
    let bytes: usize = byte_length(chars.as_slice());
    if bytes <= max {
        return s.to_owned();
    }
    let mut r = String::new();
    if chars.len() > max {
        let head = slice_subrange(chars.as_slice(), 0, max);
        push_chars(&mut r, head);
        assert(r@ =~= s@.take(max as int));
    } else {
        push_chars(&mut r, chars.as_slice());
        assert(r@ =~= s@);
    }
    r.append("\n[... ");
    r.append(write_number((bytes - max) as u128).as_str());
    r.append(" more characters]");
    r
}

/// A document marked with what the harness knows of it.
pub open spec fn marked(
    c: Content,
    run: Seq<char>,
    node: Seq<char>,
    attempt: nat,
    model: Seq<char>,
    now: Seq<char>,
) -> Content {
    Content { run, node, attempt, model, created: now, authored_by_human: false, ..c }
}

/// Marks a document with what the harness knows of it.
pub fn stamp(doc: &mut Document, run_id: &str, node: &str, attempt: u32, model: &str, now: &str)
    ensures
        final(doc)@ == marked(old(doc)@, run_id@, node@, attempt as nat, model@, now@),
        final(doc).header.results == old(doc).header.results,
{
    doc.header.run = run_id.to_owned();
    doc.header.node = node.to_owned();
    doc.header.attempt = attempt;
    doc.header.model = model.to_owned();
    doc.header.created = now.to_owned();
    doc.header.authored_by_human = false;
}

/// The name of the document of an attempt.
pub open spec fn numbered_name(name: Seq<char>, attempt: nat) -> Seq<char> {
    match split::halves_at_last(name, "."@) {
        Some((stem, ext)) => stem + ".a"@ + digits::decimal(attempt) + "."@ + ext,
        None => name + ".a"@ + digits::decimal(attempt),
    }
}

/// `03_changes.diff` at attempt 2 becomes `03_changes.a2.diff`. Documents are
/// immutable, so a repeat never overwrites.
pub fn numbered(name: &str, attempt: u32) -> (s: String)
    ensures
        s@ == numbered_name(name@, attempt as nat),
{
    let chars = chars_of(name);
    let mut s = String::new();
    match split_at_last(chars.as_slice(), ".") {
        Some((stem, ext)) => {
            push_chars(&mut s, stem);
            assert(s@ =~= stem@);
            s.append(".a");
            s.append(write_number(attempt as u128).as_str());
            s.append(".");
            push_chars(&mut s, ext);
        },
        None => {
            push_chars(&mut s, chars.as_slice());
            assert(s@ =~= name@);
            s.append(".a");
            s.append(write_number(attempt as u128).as_str());
        },
    }
    s
}

// ----------------------------------------------------------------------------- laws

/// No two attempts write the same file, and none but the first writes the one
/// that carries no number.
pub proof fn law_a_repeat_never_overwrites(name: Seq<char>, a: nat, b: nat)
    ensures
        numbered_name(name, a) == numbered_name(name, b) ==> a == b,
        numbered_name(name, a) != name,
{
    reveal_strlit(".a");
    reveal_strlit(".");
    digits::lemma_decimal(a);
    digits::lemma_decimal(b);
    let da = digits::decimal(a);
    let db = digits::decimal(b);
    let x = numbered_name(name, a);
    let y = numbered_name(name, b);
    match split::halves_at_last(name, "."@) {
        Some((stem, ext)) => {
            lemma_last_place(name, "."@);
            let k = stem.len() as int + 2;
            assert(x.subrange(k, k + da.len()) =~= da);
            assert(name.len() == stem.len() + 1 + ext.len());
            assert(x.len() == k + da.len() + 1 + ext.len());
            assert(y.len() == k + db.len() + 1 + ext.len());
            if x == y {
                assert(y.subrange(k, k + db.len()) =~= db);
            }
        },
        None => {
            let k = name.len() as int + 2;
            assert(x.subrange(k, k + da.len()) =~= da);
            assert(x.len() == k + da.len());
            assert(y.len() == k + db.len());
            if x == y {
                assert(y.subrange(k, k + db.len()) =~= db);
            }
        },
    }
}

proof fn lemma_last_place(s: Seq<char>, p: Seq<char>)
    ensures
        text::last_place(s, p) matches Some(k) ==> 0 <= k <= s.len() - p.len(),
    decreases s.len(),
{
    if s.len() > 0 {
        lemma_last_place(s.drop_last(), p);
    }
}

/// A runner that says last that tests failed is never counted as green, whatever
/// else it printed and whatever it exited with.
pub proof fn law_a_failed_suite_is_never_green(lines: Seq<Seq<char>>, line: Seq<char>)
    requires
        text::starts_with(text::trim(line), "FAILED"@),
    ensures
        tallied(lines.push(line)).conclusive,
        tallied(lines.push(line)).failed > 0,
{
    assert(lines.push(line).drop_last() =~= lines);
}

/// A command that shows no summary measured nothing: its document carries no
/// counts.
pub proof fn law_a_missing_count_is_not_a_zero(lines: Seq<Seq<char>>)
    requires
        forall|i: int| 0 <= i < lines.len() ==> !is_summary(#[trigger] lines[i]),
    ensures
        !tallied(lines).conclusive,
        tool_results(tallied(lines)) == "  conclusive: no\n"@,
    decreases lines.len(),
{
    if lines.len() > 0 {
        assert(!is_summary(lines[lines.len() - 1]));
        assert forall|i: int| 0 <= i < lines.len() - 1 implies !is_summary(#[trigger] lines.drop_last()[i]) by {
            assert(lines.drop_last()[i] == lines[i]);
        }
        law_a_missing_count_is_not_a_zero(lines.drop_last());
    }
}

/// Whether a line is part of a runner's summary.
pub open spec fn is_summary(line: Seq<char>) -> bool {
    let t = text::trim(line);
    ran(t) is Some || says_ok(t) || text::starts_with(t, "FAILED"@)
}

/// A runner that says last that all is well is counted as green, whatever it
/// printed before: where the last line that speaks of the outcome is `OK`, alone or
/// with a remark in brackets, nothing failed.
pub proof fn law_a_green_suite_is_counted_green(lines: Seq<Seq<char>>, k: int)
    requires
        0 <= k < lines.len(),
        text::trim(lines[k]) == "OK"@ || text::starts_with(text::trim(lines[k]), "OK ("@),
        forall|j: int| k < j < lines.len() ==> !text::starts_with(text::trim(#[trigger] lines[j]), "FAILED"@),
    ensures
        tallied(lines).conclusive,
        tallied(lines).failed == 0,
    decreases lines.len(),
{
    let head = lines.drop_last();
    if k < head.len() {
        assert(head[k] == lines[k]);
        assert forall|j: int| k < j < head.len() implies !text::starts_with(
            text::trim(#[trigger] head[j]),
            "FAILED"@,
        ) by {
            assert(head[j] == lines[j]);
        }
        law_a_green_suite_is_counted_green(head, k);
        assert(!text::starts_with(text::trim(lines[lines.len() - 1]), "FAILED"@));
    } else {
        let t = text::trim(lines[k]);
        reveal_strlit("OK");
        reveal_strlit("OK (");
        reveal_strlit("FAILED");
        if text::starts_with(t, "FAILED"@) {
            assert(t.subrange(0, 6)[0] == 'F');
            if text::starts_with(t, "OK ("@) {
                assert(t.subrange(0, 4)[0] == 'O');
            }
        }
    }
}

/// Where the last line that speaks of the outcome is one of failures, as many tests
/// failed as the numbers in it come to, and at least one.
pub proof fn law_failures_are_counted_by_the_last_line(lines: Seq<Seq<char>>, k: int)
    requires
        0 <= k < lines.len(),
        text::starts_with(text::trim(lines[k]), "FAILED"@),
        forall|j: int|
            k < j < lines.len() ==> !text::starts_with(text::trim(#[trigger] lines[j]), "FAILED"@) && text::trim(
                lines[j],
            ) != "OK"@ && !text::starts_with(text::trim(lines[j]), "OK ("@),
    ensures
        tallied(lines).conclusive,
        tallied(lines).failed >= 1,
        numbers_in(text::trim(lines[k])) >= 1 ==> tallied(lines).failed == numbers_in(text::trim(lines[k])),
        numbers_in(text::trim(lines[k])) == 0 ==> tallied(lines).failed == 1,
    decreases lines.len(),
{
    let head = lines.drop_last();
    if k < head.len() {
        assert(head[k] == lines[k]);
        assert forall|j: int| k < j < head.len() implies !text::starts_with(
            text::trim(#[trigger] head[j]),
            "FAILED"@,
        ) && text::trim(head[j]) != "OK"@ && !text::starts_with(text::trim(head[j]), "OK ("@) by {
            assert(head[j] == lines[j]);
        }
        law_failures_are_counted_by_the_last_line(head, k);
        assert(!text::starts_with(text::trim(lines[lines.len() - 1]), "FAILED"@));
    }
}

proof fn lemma_summed_add(a: Seq<Seq<char>>, b: Seq<Seq<char>>)
    ensures
        summed(a + b) == summed(a) + summed(b),
    decreases b.len(),
{
    if b.len() == 0 {
        assert(a + b =~= a);
    } else {
        assert((a + b).drop_last() =~= a + b.drop_last());
        assert((a + b).last() == b.last());
        lemma_summed_add(a, b.drop_last());
    }
}

/// The numbers of a line are those before a character that is no digit and those
/// behind it.
pub proof fn law_the_numbers_of_a_line_add_up(s: Seq<char>, c: char, t: Seq<char>)
    requires
        !digits::is_digit(c),
    ensures
        numbers_in(s + seq![c] + t) == numbers_in(s) + numbers_in(t),
{
    let at = split::Cut::NonDigit;
    split::law_a_cut_parts_the_pieces(s, c, t, at);
    split::lemma_solid_add(split::split(s, at), split::split(t, at));
    lemma_summed_add(split::solid(split::split(s, at)), split::solid(split::split(t, at)));
}

/// A number alone counts as itself, and an empty text for nothing.
pub proof fn law_a_number_counts_as_itself(n: nat)
    requires
        n <= u32::MAX,
    ensures
        numbers_in(digits::decimal(n)) == n,
        numbers_in(Seq::<char>::empty()) == 0,
{
    let at = split::Cut::NonDigit;
    let d = digits::decimal(n);
    digits::lemma_decimal(n);
    digits::lemma_number_of_decimal(n, u32::MAX as nat);
    split::law_what_is_not_cut_is_one_piece(d, at);
    let v = seq![d];
    assert(split::solid(v.drop_first()) =~= seq![]);
    assert(split::solid(v) =~= v);
    assert(v.drop_last() =~= seq![]);
    assert(summed(v.drop_last()) == 0);
    let none = Seq::<char>::empty();
    split::law_what_is_not_cut_is_one_piece(none, at);
    let w = seq![none];
    assert(split::solid(w.drop_first()) =~= seq![]);
    assert(split::solid(w) =~= seq![]);
}

/// The total is the number on the last line `Ran n ...`, whatever else was printed.
pub proof fn law_the_total_is_the_last_one_printed(
    lines: Seq<Seq<char>>,
    k: int,
    n: nat,
    gap: char,
    rest: Seq<char>,
)
    requires
        0 <= k < lines.len(),
        n <= u32::MAX,
        text::is_white(gap),
        text::trim(lines[k]) == "Ran "@ + (digits::decimal(n) + seq![gap] + rest),
        forall|j: int| k < j < lines.len() ==> !text::starts_with(text::trim(#[trigger] lines[j]), "Ran "@),
    ensures
        tallied(lines).conclusive,
        tallied(lines).total == n,
    decreases lines.len(),
{
    let head = lines.drop_last();
    reveal_strlit("Ran ");
    if k < head.len() {
        assert(head[k] == lines[k]);
        assert forall|j: int| k < j < head.len() implies !text::starts_with(
            text::trim(#[trigger] head[j]),
            "Ran "@,
        ) by {
            assert(head[j] == lines[j]);
        }
        law_the_total_is_the_last_one_printed(head, k, n, gap, rest);
        assert(!text::starts_with(text::trim(lines[lines.len() - 1]), "Ran "@));
    } else {
        let t = text::trim(lines[k]);
        let d = digits::decimal(n);
        let tail = d + seq![gap] + rest;
        assert(t.subrange(0, 4) =~= "Ran "@);
        assert(t.skip(4) =~= tail);
        digits::lemma_decimal(n);
        digits::lemma_number_of_decimal(n, u32::MAX as nat);
        assert forall|j: int| 0 <= j < d.len() implies !text::is_white(#[trigger] d[j]) by {
            assert(digits::is_digit(d[j]));
        }
        split::law_white_space_parts_the_words(d, gap, rest);
        split::law_a_word_is_a_word(d);
        assert(split::words(tail)[0] == d);
        assert(ran(t) == Some(n));
    }
}

/// A line that says nothing of the tests changes no count.
pub proof fn law_other_lines_change_no_count(lines: Seq<Seq<char>>, line: Seq<char>)
    requires
        !text::starts_with(text::trim(line), "Ran "@),
        text::trim(line) != "OK"@,
        !text::starts_with(text::trim(line), "OK ("@),
        !text::starts_with(text::trim(line), "FAILED"@),
    ensures
        tallied(lines.push(line)) == tallied(lines),
{
    assert(lines.push(line).drop_last() =~= lines);
}

/// The tests that passed are those that did not fail, and none where more failed
/// than were counted.
pub proof fn law_what_did_not_fail_passed(c: Tally)
    ensures
        c.failed <= c.total ==> passed(c) + c.failed == c.total,
        c.failed > c.total ==> passed(c) == 0,
{
}

/// What is shown of a text is the whole of it where it takes no more bytes than it
/// may, and otherwise its beginning, as long as it may be, with how much was left
/// out.
pub proof fn law_a_long_text_keeps_its_beginning(s: Seq<char>, max: nat)
    ensures
        text::byte_len(s) <= max ==> truncated(s, max) == s,
        text::byte_len(s) > max && s.len() > max ==> truncated(s, max).take(max as int) == s.take(max as int)
            && truncated(s, max).skip(max as int) == "\n[... "@ + digits::decimal(
            (text::byte_len(s) - max) as nat,
        ) + " more characters]"@,
{
    let rest = "\n[... "@ + digits::decimal((text::byte_len(s) - max) as nat) + " more characters]"@;
    if text::byte_len(s) > max && s.len() > max {
        let t = truncated(s, max);
        assert(t =~= s.take(max as int) + rest);
        assert(t.take(max as int) =~= s.take(max as int));
        assert(t.skip(max as int) =~= rest);
    }
}

/// The harness marks a document with what it owns, and leaves the rest as the model
/// wrote it.
pub proof fn law_marking_keeps_what_the_model_owns(
    c: Content,
    run: Seq<char>,
    node: Seq<char>,
    attempt: nat,
    model: Seq<char>,
    now: Seq<char>,
)
    ensures
        ({
            let m = marked(c, run, node, attempt, model, now);
            &&& m.artifact == c.artifact && m.results == c.results && m.digest == c.digest && m.body == c.body
                && m.inputs == c.inputs
            &&& m.run == run && m.node == node && m.attempt == attempt && m.model == model && m.created == now
            &&& !m.authored_by_human
        }),
{
}

proof fn lemma_fenced_outside(before: Seq<Seq<char>>, after: Seq<Seq<char>>)
    requires
        forall|i: int| 0 <= i < before.len() ==> !is_fence(#[trigger] before[i]),
    ensures
        fenced(before + after, false) == fenced(after, false),
    decreases before.len(),
{
    if before.len() == 0 {
        assert(before + after =~= after);
    } else {
        assert((before + after)[0] == before[0]);
        assert((before + after).drop_first() =~= before.drop_first() + after);
        assert forall|i: int| 0 <= i < before.drop_first().len() implies !is_fence(
            #[trigger] before.drop_first()[i],
        ) by {
            assert(before.drop_first()[i] == before[i + 1]);
        }
        lemma_fenced_outside(before.drop_first(), after);
    }
}

proof fn lemma_fenced_inside(inner: Seq<Seq<char>>, after: Seq<Seq<char>>)
    requires
        forall|i: int| 0 <= i < inner.len() ==> !is_fence(#[trigger] inner[i]),
    ensures
        fenced(inner + after, true) == inner + fenced(after, true),
    decreases inner.len(),
{
    if inner.len() == 0 {
        assert(inner + after =~= after);
        assert(inner + fenced(after, true) =~= fenced(after, true));
    } else {
        assert((inner + after)[0] == inner[0]);
        assert((inner + after).drop_first() =~= inner.drop_first() + after);
        assert forall|i: int| 0 <= i < inner.drop_first().len() implies !is_fence(
            #[trigger] inner.drop_first()[i],
        ) by {
            assert(inner.drop_first()[i] == inner[i + 1]);
        }
        lemma_fenced_inside(inner.drop_first(), after);
        assert(fenced(inner + after, true) =~= inner + fenced(after, true));
    }
}

/// What is fenced is exactly what stands between the fences: the lines of a block,
/// and then those of the blocks after it; what stands outside is left out.
pub proof fn law_what_is_fenced_is_kept(
    before: Seq<Seq<char>>,
    open: Seq<char>,
    inner: Seq<Seq<char>>,
    close: Seq<char>,
    after: Seq<Seq<char>>,
)
    requires
        forall|i: int| 0 <= i < before.len() ==> !is_fence(#[trigger] before[i]),
        text::starts_with(text::trim_start(open), "```"@),
        forall|i: int| 0 <= i < inner.len() ==> !is_fence(#[trigger] inner[i]),
        text::starts_with(text::trim_start(close), "```"@),
    ensures
        fenced(before + (seq![open] + (inner + (seq![close] + after))), false) == inner + fenced(after, false),
{
    let tail = seq![close] + after;
    let part = seq![open] + (inner + tail);
    lemma_fenced_outside(before, part);
    assert(part[0] == open);
    assert(part.drop_first() =~= inner + tail);
    lemma_fenced_inside(inner, tail);
    assert(tail[0] == close);
    assert(tail.drop_first() =~= after);
}

/// Without fences there is nothing fenced.
pub proof fn law_nothing_is_fenced_without_a_fence(lines: Seq<Seq<char>>)
    requires
        forall|i: int| 0 <= i < lines.len() ==> !text::starts_with(text::trim_start(#[trigger] lines[i]), "```"@),
    ensures
        fenced(lines, false) == Seq::<Seq<char>>::empty(),
{
    let none = Seq::<Seq<char>>::empty();
    assert forall|i: int| 0 <= i < lines.len() implies !is_fence(#[trigger] lines[i]) by {}
    lemma_fenced_outside(lines, none);
    assert(lines + none =~= lines);
}

/// The diff of a body is what is fenced in it, where that says anything.
pub proof fn law_a_fenced_diff_is_the_diff(body: Seq<char>)
    ensures
        text::trim(split::unlines(fenced(split::lines(body), false))).len() > 0 ==> diff_in(body) == split::unlines(
            fenced(split::lines(body), false),
        ),
{
}

/// Without a fence, the diff begins at the first line that begins one and goes to
/// the end.
pub proof fn law_an_unfenced_diff_goes_to_the_end(body: Seq<char>, k: int)
    requires
        forall|i: int|
            0 <= i < split::lines(body).len() ==> !text::starts_with(
                text::trim_start(#[trigger] split::lines(body)[i]),
                "```"@,
            ),
        0 <= k < split::lines(body).len(),
        text::starts_with(split::lines(body)[k], "diff --git"@) || text::starts_with(
            split::lines(body)[k],
            "--- "@,
        ),
        forall|i: int|
            0 <= i < k ==> !text::starts_with(#[trigger] split::lines(body)[i], "diff --git"@) && !text::starts_with(
                split::lines(body)[i],
                "--- "@,
            ),
    ensures
        diff_in(body) == split::join(split::lines(body).skip(k), "\n"@) + "\n"@,
{
    let lines = split::lines(body);
    law_nothing_is_fenced_without_a_fence(lines);
    assert(split::unlines(fenced(lines, false)) =~= seq![]);
    lemma_from_diff(lines, k);
}

proof fn lemma_from_diff(lines: Seq<Seq<char>>, k: int)
    requires
        0 <= k < lines.len(),
        opens_diff(lines[k]),
        forall|i: int| 0 <= i < k ==> !opens_diff(#[trigger] lines[i]),
    ensures
        from_diff(lines) == Some(lines.skip(k)),
    decreases k,
{
    if k == 0 {
        assert(lines.skip(0) =~= lines);
    } else {
        let rest = lines.drop_first();
        assert(!opens_diff(lines[0]));
        assert(rest[k - 1] == lines[k]);
        assert forall|i: int| 0 <= i < k - 1 implies !opens_diff(#[trigger] rest[i]) by {
            assert(rest[i] == lines[i + 1]);
        }
        lemma_from_diff(rest, k - 1);
        assert(rest.skip(k - 1) =~= lines.skip(k));
    }
}

/// The task stands whole in the first document of a run, and its digest is how the
/// task begins.
pub proof fn law_the_task_stands_in_its_document(run_id: Seq<char>, task: Seq<char>)
    ensures
        text::occurs(task_text(run_id, task), "---\nartifact: Task\nrun: "@ + run_id),
        text::ends_with(task_text(run_id, task), "\n---\n\n"@ + task + "\n"@),
        task.len() <= 300 ==> text::occurs(
            task_text(run_id, task),
            "\ninputs: []\nresults:\ndigest: |\n  "@ + task + "\n---\n\n"@,
        ),
        task.len() > 300 ==> text::occurs(
            task_text(run_id, task),
            "\ninputs: []\nresults:\ndigest: |\n  "@ + task.take(300) + "\n---\n\n"@,
        ),
{
    let s = task_text(run_id, task);
    let a = "---\nartifact: Task\nrun: "@ + run_id;
    let b = "\nnode: input\nattempt: 1\nmodel: human\ncreated: now\ninputs: []\nresults:\ndigest: |\n  "@;
    let d = if task.len() > 300 {
        task.take(300)
    } else {
        task
    };
    let e = "\n---\n\n"@;
    let tail = e + task + "\n"@;
    assert(s =~= a + b + d + tail);
    let none: Seq<char> = seq![];
    text::lemma_occurs_within(none, a, b + d + tail);
    assert(none + a + (b + d + tail) =~= s);
    assert(s.skip(s.len() - tail.len()) =~= tail);
    let c = "\nnode: input\nattempt: 1\nmodel: human\ncreated: now"@;
    let f = "\ninputs: []\nresults:\ndigest: |\n  "@;
    reveal_strlit(
        "\nnode: input\nattempt: 1\nmodel: human\ncreated: now\ninputs: []\nresults:\ndigest: |\n  ",
    );
    reveal_strlit("\nnode: input\nattempt: 1\nmodel: human\ncreated: now");
    reveal_strlit("\ninputs: []\nresults:\ndigest: |\n  ");
    assert(b =~= c + f);
    text::lemma_occurs_within(a + c, f + d + e, task + "\n"@);
    assert((a + c) + (f + d + e) + (task + "\n"@) =~= s);
}

/// A report of a command gives the counts where there are any, and none where there
/// are none.
pub proof fn law_a_report_counts_only_what_was_counted(c: Tally)
    ensures
        c.conclusive ==> text::occurs(tool_results(c), "\n  passed: "@ + digits::decimal(passed(c)) + "\n"@)
            && text::occurs(tool_results(c), "\n  failed: "@ + digits::decimal(c.failed) + "\n"@) && text::starts_with(
            tool_results(c),
            "  conclusive: yes\n  total: "@ + digits::decimal(c.total),
        ),
        !c.conclusive ==> tool_results(c) == "  conclusive: no\n"@,
{
    if c.conclusive {
        let t = tool_results(c);
        let a = "  conclusive: yes\n  total: "@ + digits::decimal(c.total);
        let b = "\n  passed: "@ + digits::decimal(passed(c));
        let d = "\n  failed: "@ + digits::decimal(c.failed);
        let e = "\n  baseline_total: 0\n  baseline_passed: 0\n"@;
        reveal_strlit("\n  failed: ");
        reveal_strlit("\n  baseline_total: 0\n  baseline_passed: 0\n");
        reveal_strlit("\n");
        assert(t =~= a + b + d + e);
        assert(t.take(a.len() as int) =~= a);
        assert(d + e =~= "\n"@ + (d + e).skip(1));
        text::lemma_occurs_within(a, b + "\n"@, (d + e).skip(1));
        assert(a + (b + "\n"@) + (d + e).skip(1) =~= t);
        assert(e =~= "\n"@ + e.skip(1));
        text::lemma_occurs_within(a + b, d + "\n"@, e.skip(1));
        assert((a + b) + (d + "\n"@) + e.skip(1) =~= t);
    }
}

/// Of what a command printed, the first two hundred lines are kept and no others.
pub proof fn law_the_first_lines_are_kept(output: Seq<char>, other: Seq<char>, i: int)
    ensures
        0 <= i < split::lines(output).len() && i < 200 ==> text::occurs(output_head(output), split::lines(output)[i]),
        split::lines(output).len() >= 200 && split::lines(other).len() >= 200 && split::lines(output).take(200)
            == split::lines(other).take(200) ==> output_head(output) == output_head(other),
{
    let l = split::lines(output);
    let m = split::lines(other);
    assert(l.len() == 200 ==> l.take(200) =~= l);
    assert(m.len() == 200 ==> m.take(200) =~= m);
    if 0 <= i < l.len() && i < 200 {
        let kept = if l.len() > 200 {
            l.take(200)
        } else {
            l
        };
        split::law_a_joined_text_holds_its_pieces(kept, "\n"@, i);
        assert(kept[i] == l[i]);
    }
}

/// What is said of a call names what it was on.
pub proof fn law_a_call_is_described_by_what_it_is_on(call: Call)
    ensures
        call matches Call::ReadFile { path } ==> text::ends_with(described(call), path),
        call matches Call::WriteFile { path, content } ==> text::occurs(described(call), path) && text::occurs(
            described(call),
            line_count(content),
        ),
        call matches Call::ReplaceInFile { path, find, replace } ==> text::occurs(described(call), path) && text::occurs(
            described(call),
            line_count(replace),
        ),
        call matches Call::AppendToFile { path, content } ==> text::ends_with(described(call), path) && text::occurs(
            described(call),
            line_count(content),
        ),
        call matches Call::DeleteFile { path } ==> text::ends_with(described(call), path),
        call matches Call::RunCommand { program, args } ==> args.len() > 0 ==> text::ends_with(
            described(call),
            args[args.len() - 1],
        ),
        call matches Call::Search { query, .. } ==> text::ends_with(described(call), query),
{
    let s = described(call);
    match call {
        Call::ReadFile { path } => {
            assert(s.skip(s.len() - path.len()) =~= path);
        },
        Call::WriteFile { path, content } => {
            let n = line_count(content);
            text::lemma_occurs_within("wrote "@, path, " ("@ + n + " lines)"@);
            assert("wrote "@ + path + (" ("@ + n + " lines)"@) =~= s);
            text::lemma_occurs_within("wrote "@ + path + " ("@, n, " lines)"@);
        },
        Call::ReplaceInFile { path, replace, .. } => {
            let n = line_count(replace);
            let a = "replaced a fragment in "@;
            text::lemma_occurs_within(a, path, " ("@ + n + " lines in)"@);
            assert(a + path + (" ("@ + n + " lines in)"@) =~= s);
            text::lemma_occurs_within(a + path + " ("@, n, " lines in)"@);
        },
        Call::AppendToFile { path, content } => {
            let n = line_count(content);
            assert(s.skip(s.len() - path.len()) =~= path);
            text::lemma_occurs_within("appended "@, n, " lines to "@ + path);
            assert("appended "@ + n + (" lines to "@ + path) =~= s);
        },
        Call::DeleteFile { path } => {
            assert(s.skip(s.len() - path.len()) =~= path);
        },
        Call::RunCommand { args, .. } => {
            if args.len() > 0 {
                assert(s.skip(s.len() - args.last().len()) =~= args.last());
            }
        },
        Call::Search { query, .. } => {
            assert(s.skip(s.len() - query.len()) =~= query);
        },
        _ => {},
    }
}

} // verus!
