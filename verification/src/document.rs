//! Run documents: the bus agents hand work over on.
//!
//! Parsing is strict and hand-written rather than delegated to a general YAML
//! parser, because this text is produced by a model and a rejection must come
//! back as an instruction the model can act on — not "invalid yaml at line 3".

use vstd::prelude::*;
use vstd::slice::slice_subrange;
use crate::digits;
use crate::digits::{parse_number, write_number};
use crate::split;
use crate::split::{join_strings, split_any, split_lines, split_once, write_lines, write_strings};
use crate::table;
use crate::table::Table;
use crate::text;
use crate::text::{
    begins, begins_with, chars_of, drop_prefix, drop_suffix, ends, mentions, in_lower_case, reads, is_ignoring_case,
    lowered, push_chars, same, string_of, strip_prefix, stripped_both, stripped_start, trimmed, trimmed_end,
    trimmed_start,
};
use crate::tokens::Tokenizer;

verus! {

pub const DIGEST_TOKEN_LIMIT: usize = 400;

/// What a document is: the type a node is asked to produce.
#[derive(Debug, Clone, Copy, PartialEq, Eq, Structural)]
pub enum Artifact {
    Task,
    Requirements,
    Plan,
    Patch,
    Findings,
    SystemMap,
    RiskAssessment,
    TestSurface,
    TestPlan,
    TestSuite,
    TestReport,
    Triage,
    ForemanLog,
    Report,
}

impl Artifact {
    /// The name an artifact goes by in a header.
    pub open spec fn label(self) -> Seq<char> {
        match self {
            Artifact::Task => "Task"@,
            Artifact::Requirements => "Requirements"@,
            Artifact::Plan => "Plan"@,
            Artifact::Patch => "Patch"@,
            Artifact::Findings => "Findings"@,
            Artifact::SystemMap => "SystemMap"@,
            Artifact::RiskAssessment => "RiskAssessment"@,
            Artifact::TestSurface => "TestSurface"@,
            Artifact::TestPlan => "TestPlan"@,
            Artifact::TestSuite => "TestSuite"@,
            Artifact::TestReport => "TestReport"@,
            Artifact::Triage => "Triage"@,
            Artifact::ForemanLog => "ForemanLog"@,
            Artifact::Report => "Report"@,
        }
    }

    /// The `results` keys this artifact must carry.
    pub open spec fn results_keys(self) -> Seq<Seq<char>> {
        match self {
            Artifact::Task => seq![],
            Artifact::Requirements => seq!["requirements"@, "unknowns"@],
            Artifact::Plan => seq!["steps"@, "risks"@, "verdict"@],
            Artifact::Patch => seq!["files"@, "added"@, "removed"@, "steps_done"@, "steps_skipped"@],
            Artifact::Findings => seq!["breaking"@, "risky"@, "minor"@, "unmet_requirements"@],
            Artifact::SystemMap => seq!["parts"@, "entry_points"@, "blank_spots"@],
            Artifact::RiskAssessment => seq!["fragile_areas"@, "hidden_couplings"@],
            Artifact::TestSurface => seq!["public_units"@, "covered"@, "uncovered"@, "untestable"@],
            Artifact::TestPlan => seq!["tests"@, "mandatory"@],
            Artifact::TestSuite => seq!["tests_written"@, "files"@],
            Artifact::TestReport => seq!["conclusive"@],
            Artifact::Triage => seq!["failures"@, "test_at_fault"@, "code_at_fault"@],
            Artifact::ForemanLog => seq!["calls"@, "budget_used"@, "complete"@],
            Artifact::Report => seq![],
        }
    }

    /// The sections its body must carry.
    pub open spec fn section_names(self) -> Seq<Seq<char>> {
        match self {
            Artifact::Requirements => seq!["Statement"@, "Requirements"@, "Out of scope"@],
            Artifact::Plan => seq!["Approach"@, "Rejected alternatives"@, "Steps"@],
            Artifact::SystemMap => seq!["Purpose"@, "Entry points"@, "Main parts"@, "Data flows"@],
            _ => seq![],
        }
    }

    /// The artifact that goes by the given name, whitespace around it aside.
    pub fn parse(s: &str) -> (r: Option<Self>)
        ensures
            r == artifact_named(text::trim(s@)),
    {
        let chars = chars_of(s);
        let name = trimmed(chars.as_slice());
        if reads(name, "Task") {
            Some(Artifact::Task)
        } else if reads(name, "Requirements") {
            Some(Artifact::Requirements)
        } else if reads(name, "Plan") {
            Some(Artifact::Plan)
        } else if reads(name, "Patch") {
            Some(Artifact::Patch)
        } else if reads(name, "Findings") {
            Some(Artifact::Findings)
        } else if reads(name, "SystemMap") {
            Some(Artifact::SystemMap)
        } else if reads(name, "RiskAssessment") {
            Some(Artifact::RiskAssessment)
        } else if reads(name, "TestSurface") {
            Some(Artifact::TestSurface)
        } else if reads(name, "TestPlan") {
            Some(Artifact::TestPlan)
        } else if reads(name, "TestSuite") {
            Some(Artifact::TestSuite)
        } else if reads(name, "TestReport") {
            Some(Artifact::TestReport)
        } else if reads(name, "Triage") {
            Some(Artifact::Triage)
        } else if reads(name, "ForemanLog") {
            Some(Artifact::ForemanLog)
        } else if reads(name, "Report") {
            Some(Artifact::Report)
        } else {
            None
        }
    }

    pub fn name(&self) -> (n: &'static str)
        ensures
            n@ == self.label(),
    {
        match self {
            Artifact::Task => "Task",
            Artifact::Requirements => "Requirements",
            Artifact::Plan => "Plan",
            Artifact::Patch => "Patch",
            Artifact::Findings => "Findings",
            Artifact::SystemMap => "SystemMap",
            Artifact::RiskAssessment => "RiskAssessment",
            Artifact::TestSurface => "TestSurface",
            Artifact::TestPlan => "TestPlan",
            Artifact::TestSuite => "TestSuite",
            Artifact::TestReport => "TestReport",
            Artifact::Triage => "Triage",
            Artifact::ForemanLog => "ForemanLog",
            Artifact::Report => "Report",
        }
    }

    /// The `results` keys this artifact must carry. Branches are written
    /// against these, so the schema is fixed per type.
    pub fn required_results(&self) -> (keys: &'static [&'static str])
        ensures
            text::names(keys@) == self.results_keys(),
    {
        let keys: &'static [&'static str] = match self {
            Artifact::Task => &[],
            Artifact::Requirements => &["requirements", "unknowns"],
            Artifact::Plan => &["steps", "risks", "verdict"],
            Artifact::Patch => &["files", "added", "removed", "steps_done", "steps_skipped"],
            Artifact::Findings => &["breaking", "risky", "minor", "unmet_requirements"],
            Artifact::SystemMap => &["parts", "entry_points", "blank_spots"],
            Artifact::RiskAssessment => &["fragile_areas", "hidden_couplings"],
            Artifact::TestSurface => &["public_units", "covered", "uncovered", "untestable"],
            Artifact::TestPlan => &["tests", "mandatory"],
            Artifact::TestSuite => &["tests_written", "files"],
            // A report says first whether it measured anything. The numbers
            // are owed only when it did: zeros for a command that ran no
            // tests would read as "all green".
            Artifact::TestReport => &["conclusive"],
            Artifact::Triage => &["failures", "test_at_fault", "code_at_fault"],
            Artifact::ForemanLog => &["calls", "budget_used", "complete"],
            Artifact::Report => &[],
        };
        assert(text::names(keys@) =~= self.results_keys());
        keys
    }

    /// Sections the body must carry: for the artifacts whose role prompt names
    /// them as a list, and only those. The check is over prose, so it is worth
    /// exactly as much as what the prompt teaches.
    pub fn required_sections(&self) -> (sections: &'static [&'static str])
        ensures
            text::names(sections@) == self.section_names(),
    {
        let sections: &'static [&'static str] = match self {
            Artifact::Requirements => &["Statement", "Requirements", "Out of scope"],
            Artifact::Plan => &["Approach", "Rejected alternatives", "Steps"],
            Artifact::SystemMap => &["Purpose", "Entry points", "Main parts", "Data flows"],
            _ => &[],
        };
        assert(text::names(sections@) =~= self.section_names());
        sections
    }
}

/// The artifact that goes by `name`.
pub open spec fn artifact_named(name: Seq<char>) -> Option<Artifact> {
    if name == "Task"@ {
        Some(Artifact::Task)
    } else if name == "Requirements"@ {
        Some(Artifact::Requirements)
    } else if name == "Plan"@ {
        Some(Artifact::Plan)
    } else if name == "Patch"@ {
        Some(Artifact::Patch)
    } else if name == "Findings"@ {
        Some(Artifact::Findings)
    } else if name == "SystemMap"@ {
        Some(Artifact::SystemMap)
    } else if name == "RiskAssessment"@ {
        Some(Artifact::RiskAssessment)
    } else if name == "TestSurface"@ {
        Some(Artifact::TestSurface)
    } else if name == "TestPlan"@ {
        Some(Artifact::TestPlan)
    } else if name == "TestSuite"@ {
        Some(Artifact::TestSuite)
    } else if name == "TestReport"@ {
        Some(Artifact::TestReport)
    } else if name == "Triage"@ {
        Some(Artifact::Triage)
    } else if name == "ForemanLog"@ {
        Some(Artifact::ForemanLog)
    } else if name == "Report"@ {
        Some(Artifact::Report)
    } else {
        None
    }
}

// ------------------------------------------------------------------- documents

#[derive(Debug, Clone, PartialEq, Eq)]
pub struct Header {
    pub artifact: Artifact,
    pub run: String,
    pub node: String,
    pub attempt: u32,
    pub model: String,
    pub created: String,
    pub inputs: Vec<String>,
    pub results: Table<String>,
    pub digest: String,
    /// Set when a human supplied the document instead of a model.
    pub authored_by_human: bool,
}

#[derive(Debug, Clone, PartialEq, Eq)]
pub struct Document {
    pub header: Header,
    pub body: String,
}

/// What a document says, as texts.
#[verifier::ext_equal]
pub struct Content {
    pub artifact: Artifact,
    pub run: Seq<char>,
    pub node: Seq<char>,
    pub attempt: nat,
    pub model: Seq<char>,
    pub created: Seq<char>,
    pub inputs: Seq<Seq<char>>,
    pub results: Seq<(Seq<char>, Seq<char>)>,
    pub digest: Seq<char>,
    pub authored_by_human: bool,
    pub body: Seq<char>,
}

impl View for Document {
    type V = Content;

    open spec fn view(&self) -> Content {
        Content {
            artifact: self.header.artifact,
            run: self.header.run@,
            node: self.header.node@,
            attempt: self.header.attempt as nat,
            model: self.header.model@,
            created: self.header.created@,
            inputs: text::texts(self.header.inputs@),
            results: table::as_texts(self.header.results@),
            digest: self.header.digest@,
            authored_by_human: self.header.authored_by_human,
            body: self.body@,
        }
    }
}

// -------------------------------------------------------------------- rejections

/// Why a text is no document.
#[derive(Debug, Clone, PartialEq, Eq)]
pub enum DocError {
    MissingFrontMatter,
    UnterminatedFrontMatter,
    MissingField(&'static str),
    UnknownArtifact(String),
    BadAttempt(String),
    EmptyDigest,
    DigestTooLong { tokens: usize, limit: usize },
    MissingResultsKey { artifact: &'static str, key: &'static str },
    MissingSection { artifact: &'static str, name: &'static str },
    BodyRestatesHeader,
    EmptyBody,
}

/// A rejection, as texts.
pub enum Fault {
    MissingFrontMatter,
    UnterminatedFrontMatter,
    MissingField(Seq<char>),
    UnknownArtifact(Seq<char>),
    BadAttempt(Seq<char>),
    EmptyDigest,
    DigestTooLong { tokens: nat, limit: nat },
    MissingResultsKey { artifact: Seq<char>, key: Seq<char> },
    MissingSection { artifact: Seq<char>, name: Seq<char> },
    BodyRestatesHeader,
    EmptyBody,
}

impl View for DocError {
    type V = Fault;

    open spec fn view(&self) -> Fault {
        match self {
            DocError::MissingFrontMatter => Fault::MissingFrontMatter,
            DocError::UnterminatedFrontMatter => Fault::UnterminatedFrontMatter,
            DocError::MissingField(k) => Fault::MissingField(k@),
            DocError::UnknownArtifact(a) => Fault::UnknownArtifact(a@),
            DocError::BadAttempt(v) => Fault::BadAttempt(v@),
            DocError::EmptyDigest => Fault::EmptyDigest,
            DocError::DigestTooLong { tokens, limit } => Fault::DigestTooLong {
                tokens: *tokens as nat,
                limit: *limit as nat,
            },
            DocError::MissingResultsKey { artifact, key } => Fault::MissingResultsKey {
                artifact: artifact@,
                key: key@,
            },
            DocError::MissingSection { artifact, name } => Fault::MissingSection {
                artifact: artifact@,
                name: name@,
            },
            DocError::BodyRestatesHeader => Fault::BodyRestatesHeader,
            DocError::EmptyBody => Fault::EmptyBody,
        }
    }
}

/// What is wrong, in one clause.
pub open spec fn complaint(e: Fault) -> Seq<char> {
    match e {
        Fault::MissingFrontMatter => "the document does not begin with a `---` header block"@,
        Fault::UnterminatedFrontMatter => "the header block is never closed with `---`"@,
        Fault::MissingField(k) => "the header is missing the required field `"@ + k + "`"@,
        Fault::UnknownArtifact(a) => "`"@ + a + "` is not a known artifact type"@,
        Fault::BadAttempt(v) => "`attempt` must be a positive whole number, found `"@ + v + "`"@,
        Fault::EmptyDigest => "`digest` is present but empty"@,
        Fault::DigestTooLong { tokens, limit } => "the digest is "@ + digits::decimal(tokens)
            + " tokens, over the limit of "@ + digits::decimal(limit),
        Fault::MissingResultsKey { artifact, key } => "a `"@ + artifact
            + "` document must carry `results."@ + key + "`"@,
        Fault::MissingSection { artifact, name } => "the body of a `"@ + artifact
            + "` document must carry a `"@ + name + "` section"@,
        Fault::BodyRestatesHeader => "the body is the header said again as JSON, not a document body"@,
        Fault::EmptyBody => "the document has a header but no body"@,
    }
}

/// What to do about it.
pub open spec fn remedy(e: Fault) -> Seq<char> {
    match e {
        Fault::MissingFrontMatter | Fault::UnterminatedFrontMatter =>
            "Begin the reply with a line containing only `---`, then the header fields, then a line containing only `---`, then the document body."@,
        Fault::MissingField(k) => "Add a `"@ + k + ":` line to the header."@,
        Fault::UnknownArtifact(_) => "Set `artifact:` to the exact type you were asked to produce."@,
        Fault::BadAttempt(_) => "Set `attempt:` to a whole number starting at 1."@,
        Fault::EmptyDigest => "Write two or three sentences of substance under `digest:`."@,
        Fault::DigestTooLong { limit, .. } => "Shorten the digest to at most "@ + digits::decimal(limit)
            + " tokens. Keep the key numbers and drop the elaboration; the body carries the detail."@,
        Fault::MissingResultsKey { key, .. } => "Add `"@ + key
            + ":` under the `results:` block, with a numeric or single-word value."@,
        Fault::MissingSection { name, .. } => "Write the missing part of the body: a line beginning with `"@
            + name
            + ":` and then that section. The body is prose in the structure the role described, not the header said twice."@,
        Fault::BodyRestatesHeader =>
            "The body after the closing `---` is prose in the structure your role described. Do not repeat the header there, and do not answer in JSON: the numbers already stand in `results:`, and what belongs below is the substance behind them."@,
        Fault::EmptyBody => "Write the document body after the closing `---`."@,
    }
}

/// What is sent back to the model on a retry.
pub open spec fn guidance_text(e: Fault) -> Seq<char> {
    "The previous reply was rejected: "@ + complaint(e) + ". "@ + remedy(e)
        + " Reply with the corrected document only."@
}

impl DocError {
    /// What is wrong, in one clause.
    pub fn message(&self) -> (s: String)
        ensures
            s@ == complaint(self@),
    {
        match self {
            DocError::MissingFrontMatter => "the document does not begin with a `---` header block".to_owned(),
            DocError::UnterminatedFrontMatter => "the header block is never closed with `---`".to_owned(),
            DocError::MissingField(k) => {
                let mut s = "the header is missing the required field `".to_owned();
                s.append(k);
                s.append("`");
                s
            },
            DocError::UnknownArtifact(a) => {
                let mut s = "`".to_owned();
                s.append(a.as_str());
                s.append("` is not a known artifact type");
                s
            },
            DocError::BadAttempt(v) => {
                let mut s = "`attempt` must be a positive whole number, found `".to_owned();
                s.append(v.as_str());
                s.append("`");
                s
            },
            DocError::EmptyDigest => "`digest` is present but empty".to_owned(),
            DocError::DigestTooLong { tokens, limit } => {
                let mut s = "the digest is ".to_owned();
                s.append(write_number(*tokens as u128).as_str());
                s.append(" tokens, over the limit of ");
                s.append(write_number(*limit as u128).as_str());
                s
            },
            DocError::MissingResultsKey { artifact, key } => {
                let mut s = "a `".to_owned();
                s.append(artifact);
                s.append("` document must carry `results.");
                s.append(key);
                s.append("`");
                s
            },
            DocError::MissingSection { artifact, name } => {
                let mut s = "the body of a `".to_owned();
                s.append(artifact);
                s.append("` document must carry a `");
                s.append(name);
                s.append("` section");
                s
            },
            DocError::BodyRestatesHeader =>
                "the body is the header said again as JSON, not a document body".to_owned(),
            DocError::EmptyBody => "the document has a header but no body".to_owned(),
        }
    }

    /// What is sent back to the model on a retry: what was wrong, and what to
    /// do about it, rather than a bare rejection.
    pub fn guidance(&self) -> (s: String)
        ensures
            s@ == guidance_text(self@),
    {
        let fix = match self {
            DocError::MissingFrontMatter | DocError::UnterminatedFrontMatter =>
                "Begin the reply with a line containing only `---`, then the header fields, then a line containing only `---`, then the document body.".to_owned(),
            DocError::MissingField(k) => {
                let mut s = "Add a `".to_owned();
                s.append(k);
                s.append(":` line to the header.");
                s
            },
            DocError::UnknownArtifact(_) =>
                "Set `artifact:` to the exact type you were asked to produce.".to_owned(),
            DocError::BadAttempt(_) => "Set `attempt:` to a whole number starting at 1.".to_owned(),
            DocError::EmptyDigest =>
                "Write two or three sentences of substance under `digest:`.".to_owned(),
            DocError::DigestTooLong { limit, .. } => {
                let mut s = "Shorten the digest to at most ".to_owned();
                s.append(write_number(*limit as u128).as_str());
                s.append(
                    " tokens. Keep the key numbers and drop the elaboration; the body carries the detail.",
                );
                s
            },
            DocError::MissingResultsKey { key, .. } => {
                let mut s = "Add `".to_owned();
                s.append(key);
                s.append(":` under the `results:` block, with a numeric or single-word value.");
                s
            },
            DocError::MissingSection { name, .. } => {
                let mut s = "Write the missing part of the body: a line beginning with `".to_owned();
                s.append(name);
                s.append(
                    ":` and then that section. The body is prose in the structure the role described, not the header said twice.",
                );
                s
            },
            DocError::BodyRestatesHeader =>
                "The body after the closing `---` is prose in the structure your role described. Do not repeat the header there, and do not answer in JSON: the numbers already stand in `results:`, and what belongs below is the substance behind them.".to_owned(),
            DocError::EmptyBody => "Write the document body after the closing `---`.".to_owned(),
        };
        let mut s = "The previous reply was rejected: ".to_owned();
        s.append(self.message().as_str());
        s.append(". ");
        s.append(fix.as_str());
        s.append(" Reply with the corrected document only.");
        s
    }
}

// ------------------------------------------------------------------ the header

/// What the lines of a header are about to belong to.
#[derive(Debug, Clone, Copy, PartialEq, Eq, Structural)]
pub enum Place {
    Top,
    Results,
    Digest,
}

/// What has been read of a header.
#[verifier::ext_equal]
pub struct Noted {
    pub fields: Seq<(Seq<char>, Seq<char>)>,
    pub results: Seq<(Seq<char>, Seq<char>)>,
    pub digest: Seq<char>,
    pub place: Place,
}

/// Whether a line is indented, and so belongs to the block above it.
pub open spec fn is_indented(line: Seq<char>) -> bool {
    line.len() > 0 && (line[0] == ' ' || line[0] == '\t')
}

/// The results with one `key: value` pair added, where the text is one.
pub open spec fn with_pair(
    results: Seq<(Seq<char>, Seq<char>)>,
    pair: Seq<char>,
) -> Seq<(Seq<char>, Seq<char>)> {
    match split::halves(pair, ':') {
        Some((k, v)) => table::put(results, text::trim(k), text::trim(v)),
        None => results,
    }
}

/// The results with several pairs added, one after the other.
pub open spec fn with_pairs(
    results: Seq<(Seq<char>, Seq<char>)>,
    pairs: Seq<Seq<char>>,
) -> Seq<(Seq<char>, Seq<char>)>
    decreases pairs.len(),
{
    if pairs.len() == 0 {
        results
    } else {
        with_pair(with_pairs(results, pairs.drop_last()), pairs.last())
    }
}

/// What a `key: value` line outside any block adds. `results` and `digest` open
/// a block, and may carry some of it on their own line.
pub open spec fn with_field(n: Noted, key: Seq<char>, value: Seq<char>) -> Noted {
    if key == "results"@ {
        Noted {
            place: Place::Results,
            results: if value.len() == 0 {
                n.results
            } else {
                with_pairs(n.results, split::split(text::strip_both(value, "{}"@), split::Cut::Any(","@)))
            },
            ..n
        }
    } else if key == "digest"@ {
        Noted { place: Place::Digest, digest: n.digest + text::trim(text::strip_start(value, "|"@)), ..n }
    } else {
        Noted { fields: table::put(n.fields, key, value), ..n }
    }
}

/// What one line of a header adds.
pub open spec fn with_line(n: Noted, line: Seq<char>) -> Noted {
    let t = text::trim(line);
    if t.len() == 0 {
        if n.place == Place::Digest {
            Noted { digest: n.digest.push('\n'), ..n }
        } else {
            n
        }
    } else if is_indented(line) && n.place == Place::Digest {
        Noted {
            digest: if n.digest.len() == 0 {
                t
            } else {
                n.digest.push('\n') + t
            },
            ..n
        }
    } else if is_indented(line) && n.place == Place::Results {
        Noted { results: with_pair(n.results, t), ..n }
    } else {
        let top = Noted { place: Place::Top, ..n };
        match split::halves(t, ':') {
            Some((k, v)) => with_field(top, text::lower_case(text::trim(k)), text::trim(v)),
            None => top,
        }
    }
}

/// What the lines of a header say.
pub open spec fn noted(lines: Seq<Seq<char>>) -> Noted
    decreases lines.len(),
{
    if lines.len() == 0 {
        Noted { fields: seq![], results: seq![], digest: seq![], place: Place::Top }
    } else {
        with_line(noted(lines.drop_last()), lines.last())
    }
}

struct Notes {
    fields: Table<String>,
    results: Table<String>,
    digest: String,
    place: Place,
}

impl Notes {
    spec fn noted(self) -> Noted {
        Noted {
            fields: table::as_texts(self.fields@),
            results: table::as_texts(self.results@),
            digest: self.digest@,
            place: self.place,
        }
    }

    spec fn wf(self) -> bool {
        self.fields.wf() && self.results.wf()
    }
}

/// Puts a string into a table of strings.
pub fn put_text(t: &mut Table<String>, key: &[char], value: &[char])
    ensures
        table::as_texts(final(t)@) == table::put(table::as_texts(old(t)@), key@, value@),
        old(t).wf() ==> final(t).wf(),
{
    let k = string_of(key);
    let v = string_of(value);
    proof {
        table::lemma_put_texts(t@, k@, v);
    }
    t.insert(k, v);
}

fn note_pair(results: &mut Table<String>, pair: &[char])
    ensures
        table::as_texts(final(results)@) == with_pair(table::as_texts(old(results)@), pair@),
        old(results).wf() ==> final(results).wf(),
{
    if let Some((k, v)) = split_once(pair, ':') {
        put_text(results, trimmed(k), trimmed(v));
    }
}

fn note_pairs(results: &mut Table<String>, pairs: &[&[char]])
    ensures
        table::as_texts(final(results)@) == with_pairs(table::as_texts(old(results)@), text::pieces(pairs@)),
        old(results).wf() ==> final(results).wf(),
{
    let ghost start = *results;
    let ghost p = text::pieces(pairs@);
    let mut i: usize = 0;
    while i < pairs.len()
        invariant
            i <= pairs.len(),
            p == text::pieces(pairs@),
            table::as_texts(results@) == with_pairs(table::as_texts(start@), p.take(i as int)),
            start.wf() ==> results.wf(),
        decreases pairs.len() - i,
    {
        note_pair(results, pairs[i]);
        i = i + 1;
        assert(p.take(i as int).drop_last() =~= p.take(i - 1));
        assert(p.take(i as int).last() == pairs@[i - 1]@);
    }
    assert(p.take(i as int) =~= p);
}

fn note_field(n: &mut Notes, key: String, value: &[char])
    ensures
        final(n).noted() == with_field(old(n).noted(), key@, value@),
        old(n).wf() ==> final(n).wf(),
{
    let k = chars_of(key.as_str());
    if reads(k.as_slice(), "results") {
        n.place = Place::Results;
        if value.len() > 0 {
            let pairs = split_any(stripped_both(value, "{}"), ",");
            note_pairs(&mut n.results, pairs.as_slice());
        }
    } else if reads(k.as_slice(), "digest") {
        n.place = Place::Digest;
        push_chars(&mut n.digest, trimmed(stripped_start(value, "|")));
    } else {
        put_text(&mut n.fields, k.as_slice(), value);
    }
}

fn note_line(n: &mut Notes, line: &[char])
    ensures
        final(n).noted() == with_line(old(n).noted(), line@),
        old(n).wf() ==> final(n).wf(),
{
    let indented = line.len() > 0 && (line[0] == ' ' || line[0] == '\t');
    let t = trimmed(line);
    if t.len() == 0 {
        if n.place == Place::Digest {
            n.digest.push('\n');
        }
        return;
    }
    if indented && n.place == Place::Digest {
        if n.digest.as_str().unicode_len() > 0 {
            n.digest.push('\n');
        }
        push_chars(&mut n.digest, t);
        return;
    }
    if indented && n.place == Place::Results {
        note_pair(&mut n.results, t);
        return;
    }
    n.place = Place::Top;
    if let Some((k, v)) = split_once(t, ':') {
        note_field(n, in_lower_case(trimmed(k)), trimmed(v));
    }
}

fn note_lines(lines: &[&[char]]) -> (n: Notes)
    ensures
        n.noted() == noted(text::pieces(lines@)),
        n.wf(),
{
    let ghost p = text::pieces(lines@);
    let mut n = Notes {
        fields: Table::new(),
        results: Table::new(),
        digest: String::new(),
        place: Place::Top,
    };
    let mut i: usize = 0;
    assert(n.noted() =~= noted(p.take(0)));
    while i < lines.len()
        invariant
            i <= lines.len(),
            p == text::pieces(lines@),
            n.noted() == noted(p.take(i as int)),
            n.wf(),
        decreases lines.len() - i,
    {
        note_line(&mut n, lines[i]);
        i = i + 1;
        assert(p.take(i as int).drop_last() =~= p.take(i - 1));
        assert(p.take(i as int).last() == lines@[i - 1]@);
    }
    assert(p.take(i as int) =~= p);
    n
}

// -------------------------------------------------------------------- the body

/// The body with a wrapping code fence taken off, if it has one. Models fence
/// JSON out of habit, and a fence must not hide what it wraps.
pub open spec fn bare(body: Seq<char>) -> Seq<char> {
    let t = text::trim(body);
    match text::after_prefix(t, "```"@) {
        None => t,
        Some(rest) => {
            let inner = match split::halves(rest, '\n') {
                Some((_, r)) => r,
                None => ""@,
            };
            if text::ends_with(text::trim_end(inner), "```"@) {
                text::trim(text::without_suffix(text::trim_end(inner), "```"@))
            } else {
                text::trim(inner)
            }
        },
    }
}

/// Whether the body is the header said again as JSON.
pub open spec fn restates_header(body: Seq<char>) -> bool {
    text::starts_with(bare(body), "{"@) && text::occurs(bare(body), "\"digest\""@)
}

/// Whether a line opens the section with this name. Deliberately lenient: the
/// name may be a heading, a list item, bold, or a bare line, in any case. A
/// document is rejected for missing a section, never for how it dressed one.
pub open spec fn opens_section(line: Seq<char>, name: Seq<char>) -> bool {
    text::starts_with(text::lower(text::strip_start(text::trim(line), "#-*> "@)), text::lower(name))
}

/// Whether the body opens a section with this name.
pub open spec fn has_section(body: Seq<char>, name: Seq<char>) -> bool {
    exists|i: int| 0 <= i < split::lines(body).len() && opens_section(#[trigger] split::lines(body)[i], name)
}

/// The first of the names that no section of the body has.
pub open spec fn missing_section(names: Seq<Seq<char>>, body: Seq<char>) -> Option<Seq<char>>
    decreases names.len(),
{
    if names.len() == 0 {
        None
    } else if !has_section(body, names[0]) {
        Some(names[0])
    } else {
        missing_section(names.drop_first(), body)
    }
}

/// The first of the keys that the results do not carry.
pub open spec fn missing_key(
    keys: Seq<Seq<char>>,
    results: Seq<(Seq<char>, Seq<char>)>,
) -> Option<Seq<char>>
    decreases keys.len(),
{
    if keys.len() == 0 {
        None
    } else if table::lookup(results, keys[0]) is None {
        Some(keys[0])
    } else {
        missing_key(keys.drop_first(), results)
    }
}

fn unfenced<'a>(body: &'a [char]) -> (r: &'a [char])
    ensures
        r@ == bare(body@),
{
    let t = trimmed(body);
    match strip_prefix(t, "```") {
        None => t,
        Some(rest) => match split_once(rest, '\n') {
            Some((_, inner)) => if ends(trimmed_end(inner), "```") {
                trimmed(drop_suffix(trimmed_end(inner), "```"))
            } else {
                trimmed(inner)
            },
            None => {
                let none = slice_subrange(rest, 0, 0);
                proof {
                    reveal_strlit("");
                    assert(none@ =~= ""@);
                    assert(text::trim_end(""@) =~= ""@);
                }
                if ends(none, "```") {
                    trimmed(drop_suffix(none, "```"))
                } else {
                    trimmed(none)
                }
            },
        },
    }
}

fn body_has_section(body: &[char], name: &str) -> (r: bool)
    ensures
        r == has_section(body@, name@),
{
    let n = chars_of(name);
    let wanted = lowered(n.as_slice());
    let lines = split_lines(body);
    let mut i: usize = 0;
    while i < lines.len()
        invariant
            i <= lines.len(),
            text::pieces(lines@) == split::lines(body@),
            wanted@ == text::lower(name@),
            forall|j: int| 0 <= j < i ==> !opens_section(#[trigger] split::lines(body@)[j], name@),
        decreases lines.len() - i,
    {
        let line = lowered(stripped_start(trimmed(lines[i]), "#-*> "));
        assert(split::lines(body@)[i as int] == lines@[i as int]@);
        if begins_with(line.as_slice(), wanted.as_slice()) {
            return true;
        }
        i = i + 1;
    }
    assert(text::pieces(lines@).len() == lines@.len());
    false
}

fn first_missing_section(names: &'static [&'static str], body: &[char]) -> (r: Option<&'static str>)
    ensures
        r is Some == missing_section(text::names(names@), body@) is Some,
        r matches Some(n) ==> Some(n@) == missing_section(text::names(names@), body@),
{
    let ghost all = text::names(names@);
    let mut i: usize = 0;
    assert(all.skip(0) =~= all);
    while i < names.len()
        invariant
            i <= names.len(),
            all == text::names(names@),
            missing_section(all.skip(i as int), body@) == missing_section(all, body@),
        decreases names.len() - i,
    {
        assert(all.skip(i as int)[0] == names@[i as int]@);
        assert(all.skip(i as int).drop_first() =~= all.skip(i + 1));
        if !body_has_section(body, names[i]) {
            return Some(names[i]);
        }
        i = i + 1;
    }
    None
}

fn first_missing_key(keys: &'static [&'static str], results: &Table<String>) -> (r: Option<&'static str>)
    ensures
        r is Some == missing_key(text::names(keys@), table::as_texts(results@)) is Some,
        r matches Some(k) ==> Some(k@) == missing_key(text::names(keys@), table::as_texts(results@)),
{
    let ghost all = text::names(keys@);
    let ghost res = table::as_texts(results@);
    let mut i: usize = 0;
    assert(all.skip(0) =~= all);
    while i < keys.len()
        invariant
            i <= keys.len(),
            all == text::names(keys@),
            res == table::as_texts(results@),
            missing_key(all.skip(i as int), res) == missing_key(all, res),
        decreases keys.len() - i,
    {
        assert(all.skip(i as int)[0] == keys@[i as int]@);
        assert(all.skip(i as int).drop_first() =~= all.skip(i + 1));
        proof {
            table::lemma_lookup_texts(results@, keys@[i as int]@);
        }
        if !results.contains_key(keys[i]) {
            return Some(keys[i]);
        }
        i = i + 1;
    }
    None
}

// --------------------------------------------------------------------- parsing

/// The place of the line that closes a header, or the number of lines where no
/// line does.
pub open spec fn closing_line(lines: Seq<Seq<char>>) -> int
    decreases lines.len(),
{
    if lines.len() == 0 || text::trim_end(lines[0]) == "---"@ {
        0
    } else {
        1 + closing_line(lines.drop_first())
    }
}

/// The lines that follow the opening `---`, where a text begins with one. A
/// byte order mark and whitespace before it are passed over.
pub open spec fn opened(s: Seq<char>) -> Option<Seq<Seq<char>>> {
    match text::after_prefix(text::trim_start(text::strip_start(s, "\u{feff}"@)), "---"@) {
        Some(rest) => Some(split::lines(text::without_prefix(rest, "\n"@))),
        None => None,
    }
}

/// One item of an inline list, without quotation marks.
pub open spec fn list_item(s: Seq<char>) -> Seq<char> {
    text::strip_both(text::strip_both(text::trim(s), "\""@), "'"@)
}

/// The items of an inline list `[a, "b"]`.
pub open spec fn inline_list(v: Seq<char>) -> Seq<Seq<char>> {
    let inner = text::without_suffix(text::without_prefix(text::trim(v), "["@), "]"@);
    split::solid(split::split(inner, split::Cut::Any(","@)).map_values(|p: Seq<char>| list_item(p)))
}

/// A field that is there and not empty.
pub open spec fn filled(fields: Seq<(Seq<char>, Seq<char>)>, key: Seq<char>) -> Option<Seq<char>> {
    match table::lookup(fields, key) {
        Some(v) => if v.len() > 0 {
            Some(v)
        } else {
            None
        },
        None => None,
    }
}

/// A field, or nothing where it is not there.
pub open spec fn field_or_empty(fields: Seq<(Seq<char>, Seq<char>)>, key: Seq<char>) -> Seq<char> {
    match table::lookup(fields, key) {
        Some(v) => v,
        None => seq![],
    }
}

/// What is wrong with a body under results that carry what the artifact asks.
/// The next node reads sections out of a body, so a body that skips one is a
/// document-shaped reply rather than a document.
pub open spec fn body_fault(
    artifact: Artifact,
    results: Seq<(Seq<char>, Seq<char>)>,
    body: Seq<char>,
) -> Option<Fault> {
    let numbers = missing_key(seq!["total"@, "passed"@, "failed"@], results);
    let section = missing_section(artifact.section_names(), body);
    if text::is_blank(body) {
        Some(Fault::EmptyBody)
    } else if artifact == Artifact::TestReport && table::lookup(results, "conclusive"@) == Some("yes"@)
        && numbers is Some {
        Some(Fault::MissingResultsKey { artifact: artifact.label(), key: numbers->0 })
    } else if restates_header(body) {
        Some(Fault::BodyRestatesHeader)
    } else if section is Some {
        Some(Fault::MissingSection { artifact: artifact.label(), name: section->0 })
    } else {
        None
    }
}

/// The document made of what a header says and the text below it.
pub open spec fn assembled<T: Tokenizer + ?Sized>(
    n: Noted,
    below: Seq<char>,
    tok: &T,
) -> Result<Content, Fault> {
    let raw = filled(n.fields, "artifact"@);
    let artifact = artifact_named(text::trim(raw->0));
    let attempt_raw = match table::lookup(n.fields, "attempt"@) {
        Some(v) => v,
        None => "1"@,
    };
    let attempt = digits::number(text::trim(attempt_raw), u32::MAX as nat);
    let digest = text::trim(n.digest);
    let absent = missing_key((artifact->0).results_keys(), n.results);
    let body = text::trim_end(text::strip_start(below, "\n"@));
    let wrong = body_fault(artifact->0, n.results, body);
    if raw is None {
        Err(Fault::MissingField("artifact"@))
    } else if artifact is None {
        Err(Fault::UnknownArtifact(raw->0))
    } else if attempt is None || attempt == Some(0nat) {
        Err(Fault::BadAttempt(attempt_raw))
    } else if digest.len() == 0 {
        Err(Fault::EmptyDigest)
    } else if tok.tokens(digest) > DIGEST_TOKEN_LIMIT {
        Err(Fault::DigestTooLong { tokens: tok.tokens(digest), limit: DIGEST_TOKEN_LIMIT as nat })
    } else if absent is Some {
        Err(Fault::MissingResultsKey { artifact: (artifact->0).label(), key: absent->0 })
    } else if wrong is Some {
        Err(wrong->0)
    } else {
        Ok(
            Content {
                artifact: artifact->0,
                run: field_or_empty(n.fields, "run"@),
                node: field_or_empty(n.fields, "node"@),
                attempt: attempt->0,
                model: field_or_empty(n.fields, "model"@),
                created: field_or_empty(n.fields, "created"@),
                inputs: match table::lookup(n.fields, "inputs"@) {
                    Some(v) => inline_list(v),
                    None => seq![],
                },
                results: n.results,
                digest,
                authored_by_human: match table::lookup(n.fields, "authored_by_human"@) {
                    Some(v) => text::same_letters(v, "true"@),
                    None => false,
                },
                body,
            },
        )
    }
}

/// The document a text is, or what is wrong with it.
pub open spec fn parsed<T: Tokenizer + ?Sized>(s: Seq<char>, tok: &T) -> Result<Content, Fault> {
    match opened(s) {
        None => Err(Fault::MissingFrontMatter),
        Some(rows) => {
            let k = closing_line(rows);
            if k >= rows.len() {
                Err(Fault::UnterminatedFrontMatter)
            } else {
                assembled(noted(rows.take(k)), split::unlines(rows.skip(k + 1)), tok)
            }
        },
    }
}

pub proof fn lemma_closing_line(lines: Seq<Seq<char>>)
    ensures
        0 <= closing_line(lines) <= lines.len(),
        closing_line(lines) < lines.len() ==> text::trim_end(lines[closing_line(lines)]) == "---"@,
        forall|j: int| 0 <= j < closing_line(lines) ==> text::trim_end(#[trigger] lines[j]) != "---"@,
    decreases lines.len(),
{
    if lines.len() > 0 && text::trim_end(lines[0]) != "---"@ {
        lemma_closing_line(lines.drop_first());
        assert forall|j: int| 0 <= j < closing_line(lines) implies text::trim_end(#[trigger] lines[j])
            != "---"@ by {
            if j > 0 {
                assert(lines.drop_first()[j - 1] == lines[j]);
            }
        }
    }
}

/// The only place that can be the first closing one.
pub proof fn lemma_closing_line_is(lines: Seq<Seq<char>>, k: int)
    requires
        0 <= k <= lines.len(),
        k < lines.len() ==> text::trim_end(lines[k]) == "---"@,
        forall|j: int| 0 <= j < k ==> text::trim_end(#[trigger] lines[j]) != "---"@,
    ensures
        closing_line(lines) == k,
{
    lemma_closing_line(lines);
    if closing_line(lines) < k {
        assert(text::trim_end(lines[closing_line(lines)]) != "---"@);
    }
}

fn find_closing_line(lines: &[&[char]]) -> (k: usize)
    ensures
        k == closing_line(text::pieces(lines@)),
        k <= lines.len(),
{
    let mut k: usize = 0;
    let ghost p = text::pieces(lines@);
    while k < lines.len() && !reads(trimmed_end(lines[k]), "---")
        invariant
            k <= lines.len(),
            p == text::pieces(lines@),
            forall|j: int| 0 <= j < k ==> text::trim_end(#[trigger] p[j]) != "---"@,
        decreases lines.len() - k,
    {
        assert(p[k as int] == lines@[k as int]@);
        k = k + 1;
    }
    proof {
        if k < lines.len() {
            assert(p[k as int] == lines@[k as int]@);
        }
        lemma_closing_line_is(p, k as int);
    }
    k
}

fn parse_inline_list(v: &[char]) -> (r: Vec<String>)
    ensures
        text::texts(r@) == inline_list(v@),
{
    let inner = drop_suffix(drop_prefix(trimmed(v), "["), "]");
    let parts = split_any(inner, ",");
    let ghost p = text::pieces(parts@);
    let ghost items = p.map_values(|s: Seq<char>| list_item(s));
    let mut r: Vec<String> = Vec::new();
    let mut i: usize = 0;
    assert(text::texts(r@) =~= seq![]);
    assert(items.skip(0) =~= items);
    assert(text::texts(r@) + split::solid(items.skip(0)) =~= split::solid(items));
    while i < parts.len()
        invariant
            i <= parts.len(),
            p == text::pieces(parts@),
            items == p.map_values(|s: Seq<char>| list_item(s)),
            text::texts(r@) + split::solid(items.skip(i as int)) == split::solid(items),
        decreases parts.len() - i,
    {
        let item = stripped_both(stripped_both(trimmed(parts[i]), "\""), "'");
        let ghost before = r@;
        assert(items.skip(i as int)[0] == item@);
        assert(items.skip(i as int).drop_first() =~= items.skip(i + 1));
        if item.len() > 0 {
            r.push(string_of(item));
            assert(text::texts(r@) =~= text::texts(before).push(item@));
            assert(text::texts(r@) + split::solid(items.skip(i + 1)) =~= text::texts(before) + split::solid(
                items.skip(i as int),
            ));
        }
        i = i + 1;
    }
    assert(items.skip(i as int) =~= seq![]);
    assert(text::texts(r@) + split::solid(items.skip(i as int)) =~= text::texts(r@));
    r
}

/// A field, or nothing where it is not there.
fn field_of(fields: &Table<String>, key: &str) -> (r: String)
    ensures
        r@ == field_or_empty(table::as_texts(fields@), key@),
{
    proof {
        table::lemma_lookup_texts(fields@, key@);
    }
    match fields.get(key) {
        Some(v) => v.as_str().to_owned(),
        None => {
            let none = String::new();
            assert(none@ =~= seq![]);
            none
        },
    }
}

fn check_body(artifact: Artifact, results: &Table<String>, body: &[char]) -> (r: Option<DocError>)
    ensures
        r is Some == body_fault(artifact, table::as_texts(results@), body@) is Some,
        r matches Some(e) ==> Some(e@) == body_fault(artifact, table::as_texts(results@), body@),
{
    if trimmed(body).len() == 0 {
        return Some(DocError::EmptyBody);
    }
    // A report that says it measured something must carry what it measured: the
    // pair is the contract, `conclusive: no` and no numbers, or `conclusive:
    // yes` and all three.
    proof {
        table::lemma_lookup_texts(results@, "conclusive"@);
    }
    if artifact == Artifact::TestReport {
        if let Some(v) = results.get("conclusive") {
            if same(v.as_str(), "yes") {
                let numbers: &'static [&'static str] = &["total", "passed", "failed"];
                assert(text::names(numbers@) =~= seq!["total"@, "passed"@, "failed"@]);
                if let Some(key) = first_missing_key(numbers, results) {
                    return Some(DocError::MissingResultsKey { artifact: artifact.name(), key });
                }
            }
        }
    }
    // A body that restates the header is what a model produces when it has
    // learned the shape of an answer and not the substance of one.
    let naked = unfenced(body);
    if begins(naked, "{") && mentions(naked, "\"digest\"") {
        return Some(DocError::BodyRestatesHeader);
    }
    match first_missing_section(artifact.required_sections(), body) {
        Some(name) => Some(DocError::MissingSection { artifact: artifact.name(), name }),
        None => None,
    }
}

fn assemble<T: Tokenizer + ?Sized>(n: Notes, below: &[char], tok: &T) -> (r: Result<Document, DocError>)
    requires
        n.wf(),
    ensures
        match r {
            Ok(d) => assembled(n.noted(), below@, tok) == Ok::<Content, Fault>(d@) && d.header.results.wf(),
            Err(e) => assembled(n.noted(), below@, tok) == Err::<Content, Fault>(e@),
        },
{
    proof {
        table::lemma_lookup_texts(n.fields@, "artifact"@);
        table::lemma_lookup_texts(n.fields@, "attempt"@);
        table::lemma_lookup_texts(n.fields@, "inputs"@);
        table::lemma_lookup_texts(n.fields@, "authored_by_human"@);
    }
    let artifact_raw = field_of(&n.fields, "artifact");
    if artifact_raw.as_str().unicode_len() == 0 {
        return Err(DocError::MissingField("artifact"));
    }
    let artifact = match Artifact::parse(artifact_raw.as_str()) {
        Some(a) => a,
        None => return Err(DocError::UnknownArtifact(artifact_raw)),
    };
    let attempt_raw = match n.fields.get("attempt") {
        Some(v) => v.as_str().to_owned(),
        None => "1".to_owned(),
    };
    let attempt_chars = chars_of(attempt_raw.as_str());
    let attempt: u32 = match parse_number(trimmed(attempt_chars.as_slice()), u32::MAX as u64) {
        Some(k) => k as u32,
        None => return Err(DocError::BadAttempt(attempt_raw)),
    };
    if attempt == 0 {
        return Err(DocError::BadAttempt(attempt_raw));
    }
    let digest_chars = chars_of(n.digest.as_str());
    let digest = string_of(trimmed(digest_chars.as_slice()));
    if digest.as_str().unicode_len() == 0 {
        return Err(DocError::EmptyDigest);
    }
    let dt: usize = tok.count(digest.as_str());
    if dt > DIGEST_TOKEN_LIMIT {
        return Err(DocError::DigestTooLong { tokens: dt, limit: DIGEST_TOKEN_LIMIT });
    }
    if let Some(key) = first_missing_key(artifact.required_results(), &n.results) {
        return Err(DocError::MissingResultsKey { artifact: artifact.name(), key });
    }
    // The blank line separating header from body is punctuation, not content.
    // Keeping it would make a document differ from itself on every round trip.
    let body = trimmed_end(stripped_start(below, "\n"));
    if let Some(e) = check_body(artifact, &n.results, body) {
        return Err(e);
    }
    let inputs = match n.fields.get("inputs") {
        Some(v) => {
            let list = chars_of(v.as_str());
            parse_inline_list(list.as_slice())
        },
        None => {
            let none: Vec<String> = Vec::new();
            assert(text::texts(none@) =~= seq![]);
            none
        },
    };
    let authored_by_human = match n.fields.get("authored_by_human") {
        Some(v) => {
            let said = chars_of(v.as_str());
            is_ignoring_case(said.as_slice(), "true")
        },
        None => false,
    };
    Ok(
        Document {
            header: Header {
                artifact,
                run: field_of(&n.fields, "run"),
                node: field_of(&n.fields, "node"),
                attempt,
                model: field_of(&n.fields, "model"),
                created: field_of(&n.fields, "created"),
                inputs,
                results: n.results,
                digest,
                authored_by_human,
            },
            body: string_of(body),
        },
    )
}

/// Reads a document. Whatever is wrong with it comes back as the first thing to
/// mend, in the order in which a header is read.
pub fn parse<T: Tokenizer + ?Sized>(text: &str, tok: &T) -> (r: Result<Document, DocError>)
    ensures
        match r {
            Ok(d) => parsed(text@, tok) == Ok::<Content, Fault>(d@) && d.header.results.wf(),
            Err(e) => parsed(text@, tok) == Err::<Content, Fault>(e@),
        },
{
    let chars = chars_of(text);
    let start = trimmed_start(stripped_start(chars.as_slice(), "\u{feff}"));
    let rest = match strip_prefix(start, "---") {
        Some(rest) => rest,
        None => return Err(DocError::MissingFrontMatter),
    };
    let rows = split_lines(drop_prefix(rest, "\n"));
    let k = find_closing_line(rows.as_slice());
    if k == rows.len() {
        return Err(DocError::UnterminatedFrontMatter);
    }
    let header = slice_subrange(rows.as_slice(), 0, k);
    let below = slice_subrange(rows.as_slice(), k + 1, rows.len());
    assert(text::pieces(header@) =~= text::pieces(rows@).take(k as int));
    assert(text::pieces(below@) =~= text::pieces(rows@).skip(k + 1));
    let body = write_lines(below);
    let body_chars = chars_of(body.as_str());
    assemble(note_lines(header), body_chars.as_slice(), tok)
}

// ------------------------------------------------------------------- rendering

/// The lines of a results block.
pub open spec fn result_lines(results: Seq<(Seq<char>, Seq<char>)>) -> Seq<Seq<char>> {
    results.map_values(|e: (Seq<char>, Seq<char>)| "  "@ + e.0 + ": "@ + e.1)
}

/// The lines of a digest block.
pub open spec fn digest_lines(digest: Seq<char>) -> Seq<Seq<char>> {
    split::lines(digest).map_values(|l: Seq<char>| "  "@ + l)
}

/// The field lines of a header, up to the results block.
pub open spec fn field_lines(c: Content) -> Seq<Seq<char>> {
    seq![
        "artifact: "@ + c.artifact.label(),
        "run: "@ + c.run,
        "node: "@ + c.node,
        "attempt: "@ + digits::decimal(c.attempt),
        "model: "@ + c.model,
        "created: "@ + c.created,
        "inputs: ["@ + split::join(c.inputs, ", "@) + "]"@,
    ] + if c.authored_by_human {
        seq!["authored_by_human: true"@]
    } else {
        seq![]
    }
}

/// The lines between the two `---` of a header.
pub open spec fn header_lines(c: Content) -> Seq<Seq<char>> {
    field_lines(c) + seq!["results:"@] + result_lines(c.results) + seq!["digest: |"@] + digest_lines(c.digest)
}

/// A document as it is written: header, an empty line, body.
pub open spec fn rendered(c: Content) -> Seq<char> {
    split::unlines(seq!["---"@] + header_lines(c) + seq!["---"@, ""@]) + c.body + seq!['\n']
}

fn labelled(label: &str, value: &str) -> (s: String)
    ensures
        s@ == label@ + value@,
{
    let mut s = label.to_owned();
    s.append(value);
    s
}

fn push_line(v: &mut Vec<String>, line: &str)
    ensures
        text::texts(final(v)@) == text::texts(old(v)@).push(line@),
{
    let s = line.to_owned();
    proof {
        text::lemma_texts_push(v@, s);
    }
    v.push(s);
}

fn write_field_lines(doc: &Document) -> (v: Vec<String>)
    ensures
        text::texts(v@) == seq!["---"@] + field_lines(doc@),
{
    let h = &doc.header;
    let mut v: Vec<String> = Vec::new();
    v.push("---".to_owned());
    v.push(labelled("artifact: ", h.artifact.name()));
    v.push(labelled("run: ", h.run.as_str()));
    v.push(labelled("node: ", h.node.as_str()));
    v.push(labelled("attempt: ", write_number(h.attempt as u128).as_str()));
    v.push(labelled("model: ", h.model.as_str()));
    v.push(labelled("created: ", h.created.as_str()));
    let mut inputs = labelled("inputs: [", join_strings(h.inputs.as_slice(), ", ").as_str());
    inputs.append("]");
    v.push(inputs);
    if h.authored_by_human {
        v.push("authored_by_human: true".to_owned());
    }
    assert(text::texts(v@) =~= seq!["---"@] + field_lines(doc@));
    v
}

fn write_result_lines(v: &mut Vec<String>, results: &Table<String>)
    ensures
        text::texts(final(v)@) == text::texts(old(v)@) + result_lines(table::as_texts(results@)),
{
    let ghost start = text::texts(v@);
    let ghost all = result_lines(table::as_texts(results@));
    let mut i: usize = 0;
    assert(start + all.take(0) =~= start);
    while i < results.len()
        invariant
            i <= results@.len(),
            all == result_lines(table::as_texts(results@)),
            text::texts(v@) == start + all.take(i as int),
        decreases results@.len() - i,
    {
        let ghost before = v@;
        let mut line = labelled("  ", results.key_at(i).as_str());
        line.append(": ");
        line.append(results.value_at(i).as_str());
        assert(line@ == all[i as int]);
        v.push(line);
        i = i + 1;
        assert(text::texts(v@) =~= text::texts(before).push(all[i - 1]));
        assert(start + all.take(i as int) =~= (start + all.take(i - 1)).push(all[i - 1]));
    }
    assert(all.take(i as int) =~= all);
}

fn write_digest_lines(v: &mut Vec<String>, digest: &str)
    ensures
        text::texts(final(v)@) == text::texts(old(v)@) + digest_lines(digest@),
{
    let chars = chars_of(digest);
    let lines = split_lines(chars.as_slice());
    let ghost start = text::texts(v@);
    let ghost all = digest_lines(digest@);
    let mut i: usize = 0;
    assert(start + all.take(0) =~= start);
    assert(text::pieces(lines@).len() == all.len());
    while i < lines.len()
        invariant
            i <= lines.len(),
            lines.len() == all.len(),
            text::pieces(lines@) == split::lines(digest@),
            all == digest_lines(digest@),
            text::texts(v@) == start + all.take(i as int),
        decreases lines.len() - i,
    {
        let ghost before = v@;
        let mut line = "  ".to_owned();
        push_chars(&mut line, lines[i]);
        assert(split::lines(digest@)[i as int] == lines@[i as int]@);
        assert(line@ == all[i as int]);
        v.push(line);
        i = i + 1;
        assert(text::texts(v@) =~= text::texts(before).push(all[i - 1]));
        assert(start + all.take(i as int) =~= (start + all.take(i - 1)).push(all[i - 1]));
    }
    assert(all.take(i as int) =~= all);
}

/// Writes a document as it is read.
pub fn render(doc: &Document) -> (s: String)
    ensures
        s@ == rendered(doc@),
{
    let mut v = write_field_lines(doc);
    push_line(&mut v, "results:");
    write_result_lines(&mut v, &doc.header.results);
    push_line(&mut v, "digest: |");
    write_digest_lines(&mut v, doc.header.digest.as_str());
    push_line(&mut v, "---");
    push_line(&mut v, "");
    assert(text::texts(v@) =~= seq!["---"@] + header_lines(doc@) + seq!["---"@, ""@]);
    let mut s = write_strings(v.as_slice());
    s.append(doc.body.as_str());
    s.push('\n');
    assert(s@ =~= rendered(doc@));
    s
}

// ------------------------------------------------------------------- what holds of it

proof fn lemma_missing_key(keys: Seq<Seq<char>>, results: Seq<(Seq<char>, Seq<char>)>)
    ensures
        missing_key(keys, results) is None <==> forall|i: int|
            0 <= i < keys.len() ==> table::lookup(results, #[trigger] keys[i]) is Some,
        missing_key(keys, results) matches Some(key) ==> keys.contains(key) && table::lookup(results, key) is None,
    decreases keys.len(),
{
    if keys.len() > 0 {
        let rest = keys.drop_first();
        lemma_missing_key(rest, results);
        if table::lookup(results, keys[0]) is None {
            assert(keys.contains(keys[0]));
        } else {
            assert forall|i: int| 0 <= i < keys.len() && missing_key(keys, results) is None implies table::lookup(
                results,
                #[trigger] keys[i],
            ) is Some by {
                if i > 0 {
                    assert(rest[i - 1] == keys[i]);
                }
            }
            if forall|i: int| 0 <= i < keys.len() ==> table::lookup(results, #[trigger] keys[i]) is Some {
                assert forall|i: int| 0 <= i < rest.len() implies table::lookup(results, #[trigger] rest[i]) is Some by {
                    assert(rest[i] == keys[i + 1]);
                }
            }
            if missing_key(rest, results) is Some {
                let i = choose|i: int| 0 <= i < rest.len() && rest[i] == missing_key(rest, results)->0;
                assert(keys[i + 1] == rest[i]);
            }
        }
    }
}

proof fn lemma_missing_section(names: Seq<Seq<char>>, body: Seq<char>)
    ensures
        missing_section(names, body) is None <==> forall|i: int|
            0 <= i < names.len() ==> has_section(body, #[trigger] names[i]),
        missing_section(names, body) matches Some(name) ==> names.contains(name) && !has_section(body, name),
    decreases names.len(),
{
    if names.len() > 0 {
        let rest = names.drop_first();
        lemma_missing_section(rest, body);
        if !has_section(body, names[0]) {
            assert(names.contains(names[0]));
        } else {
            assert forall|i: int| 0 <= i < names.len() && missing_section(names, body) is None implies has_section(
                body,
                #[trigger] names[i],
            ) by {
                if i > 0 {
                    assert(rest[i - 1] == names[i]);
                }
            }
            if forall|i: int| 0 <= i < names.len() ==> has_section(body, #[trigger] names[i]) {
                assert forall|i: int| 0 <= i < rest.len() implies has_section(body, #[trigger] rest[i]) by {
                    assert(rest[i] == names[i + 1]);
                }
            }
            if missing_section(rest, body) is Some {
                let i = choose|i: int| 0 <= i < rest.len() && rest[i] == missing_section(rest, body)->0;
                assert(names[i + 1] == rest[i]);
            }
        }
    }
}

/// Whether a document has all that one of its kind owes: a digest within its limit,
/// an attempt that counts from one, every key of its kind, and a body with every
/// section of its kind that does not say the header again. A test report that
/// concludes also gives its numbers.
pub open spec fn is_owed_nothing<T: Tokenizer + ?Sized>(c: Content, tok: &T) -> bool {
    &&& c.digest.len() > 0
    &&& tok.tokens(c.digest) <= 400
    &&& 1 <= c.attempt <= u32::MAX
    &&& text::trim(c.body).len() > 0
    &&& !(text::starts_with(bare(c.body), "{"@) && text::occurs(bare(c.body), "\"digest\""@))
    &&& forall|i: int|
        0 <= i < c.artifact.results_keys().len() ==> table::lookup(
            c.results,
            #[trigger] c.artifact.results_keys()[i],
        ) is Some
    &&& forall|i: int|
        0 <= i < c.artifact.section_names().len() ==> has_section(c.body, #[trigger] c.artifact.section_names()[i])
    &&& c.artifact is TestReport && table::lookup(c.results, "conclusive"@) == Some("yes"@) ==> table::lookup(
        c.results,
        "total"@,
    ) is Some && table::lookup(c.results, "passed"@) is Some && table::lookup(c.results, "failed"@) is Some
}

/// A document that is accepted has all that its kind owes.
pub proof fn law_what_is_accepted_is_whole<T: Tokenizer + ?Sized>(s: Seq<char>, tok: &T)
    requires
        parsed(s, tok) is Ok,
    ensures
        is_owed_nothing(parsed(s, tok)->Ok_0, tok),
{
    let c = parsed(s, tok)->Ok_0;
    let numbers = seq!["total"@, "passed"@, "failed"@];
    lemma_missing_key(c.artifact.results_keys(), c.results);
    lemma_missing_section(c.artifact.section_names(), c.body);
    lemma_missing_key(numbers, c.results);
    assert(numbers[0] == "total"@ && numbers[1] == "passed"@ && numbers[2] == "failed"@);
}

/// A header and a body that leave nothing open make a document, and it has what
/// they say: the kind, what the fields hold, the results and the digest as noted,
/// and the body without the breaks around it.
pub proof fn law_what_is_whole_is_accepted<T: Tokenizer + ?Sized>(
    n: Noted,
    below: Seq<char>,
    artifact: Artifact,
    attempt: nat,
    tok: &T,
)
    requires
        table::lookup(n.fields, "artifact"@) == Some(artifact.label()),
        artifact_named(text::trim(artifact.label())) == Some(artifact),
        artifact.label().len() > 0,
        table::lookup(n.fields, "attempt"@) matches Some(t) && digits::number(text::trim(t), u32::MAX as nat) == Some(
            attempt,
        ),
        attempt > 0,
        text::trim(n.digest).len() > 0,
        tok.tokens(text::trim(n.digest)) <= 400,
        forall|i: int|
            0 <= i < artifact.results_keys().len() ==> table::lookup(
                n.results,
                #[trigger] artifact.results_keys()[i],
            ) is Some,
        !(artifact is TestReport),
        !text::is_blank(text::trim_end(text::strip_start(below, "\n"@))),
        !restates_header(text::trim_end(text::strip_start(below, "\n"@))),
        forall|i: int|
            0 <= i < artifact.section_names().len() ==> has_section(
                text::trim_end(text::strip_start(below, "\n"@)),
                #[trigger] artifact.section_names()[i],
            ),
    ensures
        assembled(n, below, tok) matches Ok(c) && {
            &&& c.artifact == artifact
            &&& c.attempt == attempt
            &&& c.digest == text::trim(n.digest)
            &&& c.results == n.results
            &&& c.body == text::trim_end(text::strip_start(below, "\n"@))
            &&& table::lookup(n.fields, "run"@) matches Some(v) ==> c.run == v
            &&& table::lookup(n.fields, "node"@) matches Some(v) ==> c.node == v
            &&& table::lookup(n.fields, "model"@) matches Some(v) ==> c.model == v
            &&& table::lookup(n.fields, "created"@) matches Some(v) ==> c.created == v
            &&& table::lookup(n.fields, "inputs"@) matches Some(v) ==> c.inputs == inline_list(v)
            &&& table::lookup(n.fields, "inputs"@) is None ==> c.inputs.len() == 0
            &&& c.authored_by_human == (table::lookup(n.fields, "authored_by_human"@) matches Some(v)
                && text::same_letters(v, "true"@))
        },
{
    let body = text::trim_end(text::strip_start(below, "\n"@));
    lemma_missing_key(artifact.results_keys(), n.results);
    lemma_missing_section(artifact.section_names(), body);
}

/// What is refused is refused for what is wrong with it: the field, the key or the
/// section that is named is one that the document owes and does not have, and the
/// count that is over the limit is that of its digest.
pub proof fn law_a_refusal_names_what_is_wrong<T: Tokenizer + ?Sized>(n: Noted, below: Seq<char>, tok: &T)
    ensures
        assembled(n, below, tok) matches Err(e) ==> match e {
            Fault::MissingField(k) => k == "artifact"@ && (table::lookup(n.fields, k) matches Some(v) ==> v.len() == 0),
            Fault::UnknownArtifact(a) => table::lookup(n.fields, "artifact"@) == Some(a) && artifact_named(
                text::trim(a),
            ) is None,
            Fault::BadAttempt(v) => {
                &&& table::lookup(n.fields, "attempt"@) matches Some(t) ==> v == t
                &&& digits::number(text::trim(v), u32::MAX as nat) matches Some(k) ==> k == 0
            },
            Fault::EmptyDigest => text::is_blank(n.digest),
            Fault::DigestTooLong { tokens, limit } => tokens == tok.tokens(text::trim(n.digest)) && tokens > limit
                && limit == 400,
            Fault::MissingResultsKey { artifact, key } => table::lookup(n.results, key) is None,
            Fault::MissingSection { artifact, name } => !has_section(
                text::trim_end(text::strip_start(below, "\n"@)),
                name,
            ),
            Fault::BodyRestatesHeader => text::occurs(
                bare(text::trim_end(text::strip_start(below, "\n"@))),
                "\"digest\""@,
            ),
            Fault::EmptyBody => text::is_blank(text::trim_end(text::strip_start(below, "\n"@))),
            Fault::MissingFrontMatter => false,
            Fault::UnterminatedFrontMatter => false,
        },
{
    let raw = filled(n.fields, "artifact"@);
    let artifact = artifact_named(text::trim(raw->0));
    let body = text::trim_end(text::strip_start(below, "\n"@));
    lemma_missing_key((artifact->0).results_keys(), n.results);
    lemma_missing_key(seq!["total"@, "passed"@, "failed"@], n.results);
    lemma_missing_section((artifact->0).section_names(), body);
    lemma_one();
}

proof fn lemma_one()
    ensures
        digits::number(text::trim("1"@), u32::MAX as nat) == Some(1nat),
{
    reveal_strlit("1");
    text::lemma_trim_fixed("1"@);
    reveal_with_fuel(digits::value, 2);
    assert(digits::all_digits("1"@));
    assert("1"@.drop_last() =~= Seq::<char>::empty());
}

/// A line `key: value` of the header sets that field, whatever the case of the key,
/// and nothing else.
pub proof fn law_a_line_sets_its_field(n: Noted, key: Seq<char>, value: Seq<char>, other: Seq<char>)
    requires
        key.len() > 0,
        value.len() > 0,
        text::is_trimmed(key),
        text::is_trimmed(value),
        !key.contains(':'),
        text::lower_case(key) != "results"@,
        text::lower_case(key) != "digest"@,
        other != text::lower_case(key),
    ensures
        ({
            let m = with_line(n, key + ": "@ + value);
            &&& table::lookup(m.fields, text::lower_case(key)) == Some(value)
            &&& table::lookup(m.fields, other) == table::lookup(n.fields, other)
            &&& m.results == n.results
            &&& m.digest == n.digest
            &&& m.place == Place::Top
        }),
{
    lemma_pair_line(key, value);
    table::lemma_lookup_put_same(n.fields, text::lower_case(key), value);
    table::lemma_lookup_put_other(n.fields, text::lower_case(key), value, other);
}

proof fn lemma_pair_line(key: Seq<char>, value: Seq<char>)
    requires
        key.len() > 0,
        value.len() > 0,
        text::is_trimmed(key),
        text::is_trimmed(value),
        !key.contains(':'),
    ensures
        text::trim(key + ": "@ + value) == key + ": "@ + value,
        !is_indented(key + ": "@ + value),
        split::halves(key + ": "@ + value, ':') == Some((key, " "@ + value)),
        text::trim(key) == key,
        text::trim(" "@ + value) == value,
{
    let line = key + ": "@ + value;
    reveal_strlit(": ");
    reveal_strlit(" ");
    assert(line[0] == key[0]);
    assert(line.last() == value.last());
    text::lemma_trim_fixed(line);
    text::lemma_trim_fixed(key);
    split::law_a_text_is_parted_at_the_first(key, ':', " "@ + value);
    assert(line =~= key + seq![':'] + (" "@ + value));
    assert(text::all_white(" "@));
    text::lemma_trim_padded(" "@, value, seq![]);
    assert(" "@ + value + seq![] =~= " "@ + value);
}

/// An indented line `key: value` under `results:` is one of the results, and one
/// under `digest:` goes on with the digest; neither sets a field.
pub proof fn law_an_indented_line_belongs_to_its_block(n: Noted, key: Seq<char>, value: Seq<char>, other: Seq<char>)
    requires
        key.len() > 0,
        value.len() > 0,
        text::is_trimmed(key),
        text::is_trimmed(value),
        !key.contains(':'),
        other != key,
    ensures
        ({
            let line = key + ": "@ + value;
            let m = with_line(n, "  "@ + line);
            &&& n.place is Results ==> table::lookup(m.results, key) == Some(value) && table::lookup(m.results, other)
                == table::lookup(n.results, other) && m.digest == n.digest && m.fields == n.fields && m.place is Results
            &&& n.place is Digest ==> m.results == n.results && m.fields == n.fields && m.place is Digest && m.digest == (
            if n.digest.len() == 0 {
                line
            } else {
                n.digest + seq!['\n'] + line
            })
        }),
{
    let line = key + ": "@ + value;
    lemma_pair_line(key, value);
    reveal_strlit("  ");
    reveal_strlit(": ");
    assert(text::all_white("  "@));
    text::lemma_trim_padded("  "@, line, seq![]);
    assert("  "@ + line + seq![] =~= "  "@ + line);
    assert(is_indented("  "@ + line));
    table::lemma_lookup_put_same(n.results, key, value);
    table::lemma_lookup_put_other(n.results, key, value, other);
    assert(n.digest.push('\n') =~= n.digest + seq!['\n']);
}

/// `results:` and `digest:` open their blocks; what stands on the line of the digest
/// begins it, and an empty line within the digest is kept.
pub proof fn law_a_block_is_opened_by_its_key(n: Noted, value: Seq<char>)
    requires
        value.len() > 0,
        text::is_trimmed(value),
        value[0] != '|',
    ensures
        with_field(n, "results"@, ""@) == (Noted { place: Place::Results, ..n }),
        with_field(n, "digest"@, value) == (Noted { place: Place::Digest, digest: n.digest + value, ..n }),
        with_field(n, "digest"@, "|"@) == (Noted { place: Place::Digest, ..n }),
        n.place is Digest ==> with_line(n, ""@) == (Noted { digest: n.digest + seq!['\n'], ..n }),
        !(n.place is Digest) ==> with_line(n, ""@) == n,
{
    reveal_strlit("results");
    reveal_strlit("digest");
    reveal_strlit("");
    reveal_strlit("|");
    assert("results"@.len() != "digest"@.len());
    text::lemma_trim_fixed(value);
    assert(text::strip_start(value, "|"@) == value);
    assert("|"@.contains("|"@[0]));
    assert("|"@.drop_first() =~= Seq::<char>::empty());
    assert(text::strip_start("|"@.drop_first(), "|"@) =~= Seq::<char>::empty());
    assert(text::strip_start("|"@, "|"@) =~= Seq::<char>::empty());
    text::lemma_trim_fixed(Seq::<char>::empty());
    assert(n.digest + Seq::<char>::empty() =~= n.digest);
    text::lemma_trim_fixed(""@);
    assert(n.digest.push('\n') =~= n.digest + seq!['\n']);
}

/// A body in JSON that has a digest says the header again, with a fence around it
/// or without; prose does not.
pub proof fn law_a_header_said_again_is_seen(t: Seq<char>, lang: Seq<char>)
    requires
        t.len() > 0,
        text::is_trimmed(t),
        !lang.contains('\n'),
    ensures
        t[0] == '{' ==> restates_header(t) == text::occurs(t, "\"digest\""@),
        t[0] != '{' && t[0] != '`' ==> !restates_header(t),
        restates_header("```"@ + lang + "\n"@ + t + "\n```"@) == (t[0] == '{' && text::occurs(t, "\"digest\""@)),
{
    reveal_strlit("```");
    reveal_strlit("{");
    reveal_strlit("\n");
    reveal_strlit("\n```");
    text::lemma_trim_fixed(t);
    if t[0] != '`' {
        if text::starts_with(t, "```"@) {
            assert(t.take(3)[0] == "```"@[0]);
        }
        assert(bare(t) == t);
    }
    assert(text::starts_with(t, "{"@) == (t[0] == '{')) by {
        if t[0] == '{' {
            assert(t.take(1) =~= "{"@);
        } else if text::starts_with(t, "{"@) {
            assert(t.take(1)[0] == "{"@[0]);
        }
    }
    let whole = "```"@ + lang + "\n"@ + t + "\n```"@;
    assert(whole[0] == '`');
    assert(whole.last() == '`');
    text::lemma_trim_fixed(whole);
    assert(whole.take(3) =~= "```"@);
    let rest = lang + "\n"@ + t + "\n```"@;
    assert(whole.skip(3) =~= rest);
    let inner = t + "\n```"@;
    split::law_a_text_is_parted_at_the_first(lang, '\n', inner);
    assert(rest =~= lang + seq!['\n'] + inner);
    assert(inner.last() == '`');
    assert(text::trim_end(inner) == inner);
    assert(inner.skip(inner.len() - 3) =~= "```"@);
    assert(inner.take(inner.len() - 3) =~= t + "\n"@);
    assert(text::all_white("\n"@));
    text::lemma_trim_padded(seq![], t, "\n"@);
    assert(Seq::<char>::empty() + t + "\n"@ =~= t + "\n"@);
    assert(bare(whole) == t);
}

/// The names of the kinds are theirs alone: a name is read as the kind that has it,
/// and no other name is read.
pub proof fn law_a_kind_has_one_name(name: Seq<char>)
    ensures
        artifact_named(name) matches Some(a) ==> a.label() == name,
{
}

/// What a model is told names what is to be mended.
pub proof fn law_the_guidance_names_what_to_mend(e: Fault)
    ensures
        e matches Fault::MissingField(k) ==> text::occurs(guidance_text(e), k),
        e matches Fault::UnknownArtifact(a) ==> text::occurs(guidance_text(e), a),
        e matches Fault::BadAttempt(v) ==> text::occurs(guidance_text(e), v),
        e matches Fault::DigestTooLong { tokens, limit } ==> text::occurs(guidance_text(e), digits::decimal(tokens))
            && text::occurs(guidance_text(e), digits::decimal(limit)),
        e matches Fault::MissingResultsKey { artifact, key } ==> text::occurs(guidance_text(e), key) && text::occurs(
            guidance_text(e),
            artifact,
        ),
        e matches Fault::MissingSection { artifact, name } ==> text::occurs(guidance_text(e), name) && text::occurs(
            guidance_text(e),
            artifact,
        ),
        text::occurs(guidance_text(e), remedy(e)),
{
    let lead = "The previous reply was rejected: "@;
    let tail = " Reply with the corrected document only."@;
    let c = complaint(e);
    let g = guidance_text(e);
    assert(g =~= lead + c + (". "@ + remedy(e) + tail));
    text::lemma_occurs_within(lead, c, ". "@ + remedy(e) + tail);
    assert(g =~= (lead + c + ". "@) + remedy(e) + tail);
    text::lemma_occurs_within(lead + c + ". "@, remedy(e), tail);
    match e {
        Fault::MissingField(k) => {
            text::lemma_occurs_within("the header is missing the required field `"@, k, "`"@);
            text::lemma_occurs_trans(g, c, k);
        },
        Fault::UnknownArtifact(a) => {
            text::lemma_occurs_within("`"@, a, "` is not a known artifact type"@);
            text::lemma_occurs_trans(g, c, a);
        },
        Fault::BadAttempt(v) => {
            text::lemma_occurs_within("`attempt` must be a positive whole number, found `"@, v, "`"@);
            text::lemma_occurs_trans(g, c, v);
        },
        Fault::DigestTooLong { tokens, limit } => {
            let t = digits::decimal(tokens);
            let l = digits::decimal(limit);
            text::lemma_occurs_within("the digest is "@, t, " tokens, over the limit of "@ + l);
            assert(c =~= "the digest is "@ + t + (" tokens, over the limit of "@ + l));
            text::lemma_occurs_trans(g, c, t);
            text::lemma_occurs_within("the digest is "@ + t + " tokens, over the limit of "@, l, seq![]);
            assert(c =~= ("the digest is "@ + t + " tokens, over the limit of "@) + l + seq![]);
            text::lemma_occurs_trans(g, c, l);
        },
        Fault::MissingResultsKey { artifact, key } => {
            text::lemma_occurs_within("a `"@, artifact, "` document must carry `results."@ + key + "`"@);
            assert(c =~= "a `"@ + artifact + ("` document must carry `results."@ + key + "`"@));
            text::lemma_occurs_trans(g, c, artifact);
            text::lemma_occurs_within("a `"@ + artifact + "` document must carry `results."@, key, "`"@);
            text::lemma_occurs_trans(g, c, key);
        },
        Fault::MissingSection { artifact, name } => {
            text::lemma_occurs_within("the body of a `"@, artifact, "` document must carry a `"@ + name + "` section"@);
            assert(c =~= "the body of a `"@ + artifact + ("` document must carry a `"@ + name + "` section"@));
            text::lemma_occurs_trans(g, c, artifact);
            text::lemma_occurs_within("the body of a `"@ + artifact + "` document must carry a `"@, name, "` section"@);
            text::lemma_occurs_trans(g, c, name);
        },
        _ => {},
    }
}

/// Which number belongs to which kind of document, and which section to which.
pub proof fn law_each_number_has_its_kind(a: Artifact, k: Seq<char>)
    ensures
        a.results_keys().contains(k) <==> ({
            ||| k == "requirements"@ && a is Requirements
            ||| k == "unknowns"@ && a is Requirements
            ||| k == "steps"@ && a is Plan
            ||| k == "risks"@ && a is Plan
            ||| k == "verdict"@ && a is Plan
            ||| k == "files"@ && (a is Patch || a is TestSuite)
            ||| k == "added"@ && a is Patch
            ||| k == "removed"@ && a is Patch
            ||| k == "steps_done"@ && a is Patch
            ||| k == "steps_skipped"@ && a is Patch
            ||| k == "breaking"@ && a is Findings
            ||| k == "risky"@ && a is Findings
            ||| k == "minor"@ && a is Findings
            ||| k == "unmet_requirements"@ && a is Findings
            ||| k == "parts"@ && a is SystemMap
            ||| k == "entry_points"@ && a is SystemMap
            ||| k == "blank_spots"@ && a is SystemMap
            ||| k == "fragile_areas"@ && a is RiskAssessment
            ||| k == "hidden_couplings"@ && a is RiskAssessment
            ||| k == "public_units"@ && a is TestSurface
            ||| k == "covered"@ && a is TestSurface
            ||| k == "uncovered"@ && a is TestSurface
            ||| k == "untestable"@ && a is TestSurface
            ||| k == "tests"@ && a is TestPlan
            ||| k == "mandatory"@ && a is TestPlan
            ||| k == "tests_written"@ && a is TestSuite
            ||| k == "conclusive"@ && a is TestReport
            ||| k == "failures"@ && a is Triage
            ||| k == "test_at_fault"@ && a is Triage
            ||| k == "code_at_fault"@ && a is Triage
            ||| k == "calls"@ && a is ForemanLog
            ||| k == "budget_used"@ && a is ForemanLog
            ||| k == "complete"@ && a is ForemanLog
        }),
        a.section_names().contains(k) <==> ({
            ||| k == "Statement"@ && a is Requirements
            ||| k == "Requirements"@ && a is Requirements
            ||| k == "Out of scope"@ && a is Requirements
            ||| k == "Approach"@ && a is Plan
            ||| k == "Rejected alternatives"@ && a is Plan
            ||| k == "Steps"@ && a is Plan
            ||| k == "Purpose"@ && a is SystemMap
            ||| k == "Entry points"@ && a is SystemMap
            ||| k == "Main parts"@ && a is SystemMap
            ||| k == "Data flows"@ && a is SystemMap
        }),
{
    let keys = a.results_keys();
    let names = a.section_names();
    assert forall|i: int| 0 <= i < keys.len() implies keys.contains(#[trigger] keys[i]) by {}
    assert forall|i: int| 0 <= i < names.len() implies names.contains(#[trigger] names[i]) by {}
    assert(keys.len() > 0 ==> keys.contains(keys[0]));
    assert(keys.len() > 1 ==> keys.contains(keys[1]));
    assert(keys.len() > 2 ==> keys.contains(keys[2]));
    assert(keys.len() > 3 ==> keys.contains(keys[3]));
    assert(keys.len() > 4 ==> keys.contains(keys[4]));
    assert(names.len() > 0 ==> names.contains(names[0]));
    assert(names.len() > 1 ==> names.contains(names[1]));
    assert(names.len() > 2 ==> names.contains(names[2]));
    assert(names.len() > 3 ==> names.contains(names[3]));
}

proof fn lemma_strip_marks(marks: Seq<char>, r: Seq<char>, set: Seq<char>)
    requires
        forall|i: int| 0 <= i < marks.len() ==> set.contains(#[trigger] marks[i]),
        r.len() > 0,
        !set.contains(r[0]),
    ensures
        text::strip_start(marks + r, set) == r,
    decreases marks.len(),
{
    if marks.len() == 0 {
        assert(marks + r =~= r);
    } else {
        let rest = marks.drop_first();
        assert((marks + r).drop_first() =~= rest + r);
        assert((marks + r)[0] == marks[0]);
        assert forall|i: int| 0 <= i < rest.len() implies set.contains(#[trigger] rest[i]) by {
            assert(rest[i] == marks[i + 1]);
        }
        lemma_strip_marks(rest, r, set);
    }
}

proof fn lemma_trim_before(marks: Seq<char>, r: Seq<char>) -> (k: int)
    requires
        r.len() > 0,
        !text::is_white(r[0]),
    ensures
        0 <= k <= marks.len(),
        text::trim_start(marks + r) == marks.skip(k) + r,
    decreases marks.len(),
{
    if marks.len() == 0 {
        assert(marks + r =~= r);
        assert(marks.skip(0) + r =~= r);
        0
    } else if text::is_white(marks[0]) {
        let rest = marks.drop_first();
        assert((marks + r).drop_first() =~= rest + r);
        let k = lemma_trim_before(rest, r);
        assert(rest.skip(k) =~= marks.skip(k + 1));
        k + 1
    } else {
        assert((marks + r)[0] == marks[0]);
        assert(marks.skip(0) =~= marks);
        0
    }
}

proof fn lemma_trim_after(a: Seq<char>, rest: Seq<char>) -> (k: int)
    requires
        a.len() > 0,
        !text::is_white(a.last()),
    ensures
        0 <= k <= rest.len(),
        text::trim_end(a + rest) == a + rest.take(k),
    decreases rest.len(),
{
    if rest.len() == 0 {
        assert(a + rest =~= a);
        assert(a + rest.take(0) =~= a);
        0
    } else if text::is_white(rest.last()) {
        assert((a + rest).drop_last() =~= a + rest.drop_last());
        assert((a + rest).last() == rest.last());
        let k = lemma_trim_after(a, rest.drop_last());
        assert(rest.drop_last().take(k) =~= rest.take(k));
        k
    } else {
        assert((a + rest).last() == rest.last());
        assert(rest.take(rest.len() as int) =~= rest);
        rest.len() as int
    }
}

/// A line opens a section where it begins with the name of it, behind the marks of a
/// heading or a list or without them, in whatever case, and whatever follows.
pub proof fn law_a_section_is_opened_by_its_name(
    marks: Seq<char>,
    written: Seq<char>,
    rest: Seq<char>,
    name: Seq<char>,
)
    requires
        forall|i: int| 0 <= i < marks.len() ==> "#-*> "@.contains(#[trigger] marks[i]),
        written.len() > 0,
        text::is_trimmed(written),
        !"#-*> "@.contains(written[0]),
        text::same_letters(written, name),
    ensures
        opens_section(marks + written + rest, name),
{
    let line = marks + written + rest;
    let set = "#-*> "@;
    assert(line =~= marks + (written + rest));
    assert((written + rest)[0] == written[0]);
    let k = lemma_trim_before(marks, written + rest);
    let left = marks.skip(k);
    let a = left + written;
    assert(left + (written + rest) =~= a + rest);
    assert(a.last() == written.last());
    let e = lemma_trim_after(a, rest);
    let r = written + rest.take(e);
    assert(text::trim(line) =~= left + r);
    assert(r[0] == written[0]);
    assert forall|i: int| 0 <= i < left.len() implies set.contains(#[trigger] left[i]) by {
        assert(left[i] == marks[k + i]);
    }
    lemma_strip_marks(left, r, set);
    assert(text::lower(r).take(name.len() as int) =~= text::lower(name)) by {
        assert(text::lower(written).len() == written.len());
        assert(text::lower(name).len() == name.len());
        assert forall|i: int| 0 <= i < name.len() implies text::lower(r)[i] == text::lower(name)[i] by {
            assert(text::lower(r)[i] == text::lower(written)[i]);
        }
    }
}

/// A line opens no section whose name does not stand in it.
pub proof fn law_a_section_has_its_name_in_a_line(body: Seq<char>, name: Seq<char>)
    requires
        has_section(body, name),
    ensures
        exists|i: int|
            0 <= i < split::lines(body).len() && text::occurs(
                text::lower(text::strip_start(text::trim(#[trigger] split::lines(body)[i]), "#-*> "@)),
                text::lower(name),
            ),
{
    let i = choose|i: int|
        0 <= i < split::lines(body).len() && opens_section(#[trigger] split::lines(body)[i], name);
    let s = text::lower(text::strip_start(text::trim(split::lines(body)[i]), "#-*> "@));
    let p = text::lower(name);
    assert(s.subrange(0, p.len() as int) =~= s.take(p.len() as int));
    assert(text::stands_at(s, p, 0));
}

/// Results may stand in braces on the line of their key.
pub proof fn law_results_may_stand_on_one_line(n: Noted, key: Seq<char>, value: Seq<char>, other: Seq<char>)
    requires
        key.len() > 0,
        value.len() > 0,
        text::is_trimmed(key),
        text::is_trimmed(value),
        !key.contains(':'),
        !key.contains(','),
        !value.contains(','),
        !"{}"@.contains(key[0]),
        !"{}"@.contains(value.last()),
        other != key,
    ensures
        ({
            let m = with_field(n, "results"@, "{"@ + (key + ": "@ + value) + "}"@);
            &&& table::lookup(m.results, key) == Some(value)
            &&& table::lookup(m.results, other) == table::lookup(n.results, other)
        }),
{
    let line = key + ": "@ + value;
    let whole = "{"@ + line + "}"@;
    let set = "{}"@;
    reveal_strlit("{");
    reveal_strlit("}");
    reveal_strlit("{}");
    reveal_strlit(": ");
    reveal_strlit(",");
    lemma_pair_line(key, value);
    assert(set[0] == '{' && set[1] == '}');
    assert(set.contains('{') && set.contains('}'));
    assert(whole =~= "{"@ + (line + "}"@));
    assert((line + "}"@)[0] == key[0]);
    lemma_strip_marks("{"@, line + "}"@, set);
    assert((line + "}"@).last() == '}');
    assert((line + "}"@).drop_last() =~= line);
    assert(line.last() == value.last());
    assert(text::strip_end(line, set) == line);
    assert(set.contains((line + "}"@).last()));
    assert(text::strip_end(line + "}"@, set) == line);
    assert(text::strip_both(whole, set) == line);
    assert forall|i: int| 0 <= i < line.len() implies !split::cuts(split::Cut::Any(","@), #[trigger] line[i]) by {
        if i < key.len() {
            assert(key.contains(line[i]));
        } else if i >= key.len() + 2 {
            assert(line[i] == value[i - key.len() - 2]);
            assert(value.contains(line[i]));
        }
    }
    split::law_what_is_not_cut_is_one_piece(line, split::Cut::Any(","@));
    let pieces = seq![line];
    assert(pieces.drop_last() =~= Seq::<Seq<char>>::empty());
    assert(with_pairs(n.results, pieces.drop_last()) == n.results);
    assert(pieces.last() == line);
    table::lemma_lookup_put_same(n.results, key, value);
    table::lemma_lookup_put_other(n.results, key, value, other);
}

/// An input may be written with quotes around it or without.
pub proof fn law_quotes_around_an_input_are_taken_off(x: Seq<char>)
    requires
        x.len() > 0,
        text::is_trimmed(x),
        x[0] != '"',
        x[0] != '\'',
        x.last() != '"',
        x.last() != '\'',
    ensures
        list_item(x) == x,
        list_item("\""@ + x + "\""@) == x,
        list_item("'"@ + x + "'"@) == x,
{
    reveal_strlit("\"");
    reveal_strlit("'");
    text::lemma_trim_fixed(x);
    let a = "\""@ + x + "\""@;
    let b = "'"@ + x + "'"@;
    assert(a[0] == '"' && a.last() == '"' && b[0] == '\'' && b.last() == '\'');
    text::lemma_trim_fixed(a);
    text::lemma_trim_fixed(b);
    assert("\""@.contains("\""@[0]));
    assert("'"@.contains("'"@[0]));
    assert(!"\""@.contains(x[0]) && !"'"@.contains(x[0]));
    assert(!"\""@.contains(x.last()) && !"'"@.contains(x.last()));
    assert(text::strip_both(x, "\""@) == x);
    assert(text::strip_both(x, "'"@) == x);
    assert(a =~= "\""@ + (x + "\""@));
    assert((x + "\""@)[0] == x[0]);
    lemma_strip_marks("\""@, x + "\""@, "\""@);
    assert((x + "\""@).drop_last() =~= x);
    assert((x + "\""@).last() == '"');
    assert(text::strip_both(a, "\""@) == x);
    assert(!"\""@.contains(b[0]) && !"\""@.contains(b.last()));
    assert(text::strip_both(b, "\""@) == b);
    assert(b =~= "'"@ + (x + "'"@));
    assert((x + "'"@)[0] == x[0]);
    lemma_strip_marks("'"@, x + "'"@, "'"@);
    assert((x + "'"@).drop_last() =~= x);
    assert((x + "'"@).last() == '\'');
}

} // verus!
