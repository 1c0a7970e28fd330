//! What is written is read back: the laws that tie `render` to `parse`.

use vstd::prelude::*;
use crate::digits;
use crate::document;
use crate::document::{Artifact, Content, Fault, Noted, Place, DIGEST_TOKEN_LIMIT};
use crate::split;
use crate::table;
use crate::text;
use crate::tokens::Tokenizer;

verus! {

// ------------------------------------------------------------------ definitions

/// Whether a value stands on one line with nothing to trim.
pub open spec fn is_value(v: Seq<char>) -> bool {
    text::is_trimmed(v) && !v.contains('\n')
}

/// Whether a text can be a key of the results block.
pub open spec fn is_key(k: Seq<char>) -> bool {
    is_value(k) && !k.contains(':')
}

/// Whether a text can be an item of an inline list.
pub open spec fn is_item(s: Seq<char>) -> bool {
    s.len() > 0 && document::list_item(s) == s && !s.contains(',') && !s.contains('\n')
}

/// Whether no whitespace but further line breaks stands beside a line break, or
/// at either end.
pub open spec fn is_tidy(s: Seq<char>) -> bool {
    &&& s.len() > 0 ==> solid_or_break(s[0]) && solid_or_break(s.last())
    &&& forall|i: int|
        0 <= i < s.len() - 1 ==> (#[trigger] s[i] == '\n' ==> solid_or_break(s[i + 1])) && (s[i + 1] == '\n'
            ==> solid_or_break(s[i]))
}

pub open spec fn solid_or_break(c: char) -> bool {
    c == '\n' || !text::is_white(c)
}

/// Whether a document is one that can be read back from what it is written as.
pub open spec fn is_canonical<T: Tokenizer + ?Sized>(c: Content, tok: &T) -> bool {
    &&& 1 <= c.attempt <= u32::MAX
    &&& is_value(c.run)
    &&& is_value(c.node)
    &&& is_value(c.model)
    &&& is_value(c.created)
    &&& forall|i: int| 0 <= i < c.inputs.len() ==> is_item(#[trigger] c.inputs[i])
    &&& table::ordered(c.results)
    &&& forall|i: int| 0 <= i < c.results.len() ==> is_key((#[trigger] c.results[i]).0) && is_value(c.results[i].1)
    &&& c.digest.len() > 0
    &&& text::is_trimmed(c.digest)
    &&& is_tidy(c.digest)
    &&& tok.tokens(c.digest) <= DIGEST_TOKEN_LIMIT
    &&& document::missing_key(c.artifact.results_keys(), c.results) is None
    &&& document::body_fault(c.artifact, c.results, c.body) is None
    &&& c.body.len() > 0
    &&& c.body[0] != '\n'
    &&& !text::is_white(c.body.last())
    &&& !split::has_crlf(c.body)
}

// ------------------------------------------------------------------ single lines

/// What stands around the first `:` of a line that begins with a key.
proof fn lemma_halves(k: Seq<char>, v: Seq<char>)
    requires
        !k.contains(':'),
    ensures
        split::halves(k + seq![':'] + v, ':') == Some((k, v)),
{
    let s = k + seq![':'] + v;
    assert forall|j: int| 0 <= j < k.len() implies s[j] != ':' by {
        assert(s[j] == k[j]);
        assert(k.contains(k[j]));
    }
    assert(s[k.len() as int] == ':');
    text::lemma_first_of_is(s, ':', k.len() as int);
    assert(s.take(k.len() as int) =~= k);
    assert(s.skip(k.len() as int + 1) =~= v);
}

/// How a `key: value` line is trimmed and taken apart again.
proof fn lemma_pair_line(pad: Seq<char>, k: Seq<char>, v: Seq<char>)
    requires
        text::all_white(pad),
        is_key(k),
        is_value(v),
    ensures
        text::trim(pad + k + ": "@ + v).len() > 0,
        ({
            let h = split::halves(text::trim(pad + k + ": "@ + v), ':');
            &&& h is Some
            &&& text::trim((h->0).0) == k
            &&& text::trim((h->0).1) == v
        }),
{
    reveal_strlit(": ");
    let colon = seq![':'];
    let gap = seq![' '];
    let none = Seq::<char>::empty();
    assert(": "@ =~= colon + gap);
    text::lemma_trim_fixed(k);
    text::lemma_trim_fixed(v);
    assert(text::all_white(gap));
    assert(text::all_white(none));
    if v.len() == 0 {
        let t = k + colon;
        assert(pad + k + ": "@ + v =~= pad + t + gap);
        assert(text::is_trimmed(t)) by {
            if k.len() > 0 {
                assert(t[0] == k[0]);
            }
            assert(t.last() == ':');
        }
        text::lemma_trim_padded(pad, t, gap);
        assert(t =~= k + colon + none);
        lemma_halves(k, none);
        assert(none =~= v);
    } else {
        let t = k + colon + gap + v;
        assert(pad + k + ": "@ + v =~= pad + t + none);
        assert(text::is_trimmed(t)) by {
            if k.len() > 0 {
                assert(t[0] == k[0]);
            } else {
                assert(t[0] == ':');
            }
            assert(t.last() == v.last());
        }
        text::lemma_trim_padded(pad, t, none);
        assert(t =~= k + colon + (gap + v));
        lemma_halves(k, gap + v);
        assert(gap + v =~= gap + v + none);
        text::lemma_trim_padded(gap, v, none);
    }
}

/// Whether a text is a field's name as it stands: lower case, on one line.
spec fn is_name(k: Seq<char>) -> bool {
    &&& k.len() > 0
    &&& forall|i: int| 0 <= i < k.len() ==> ('a' <= #[trigger] k[i] && k[i] <= 'z') || k[i] == '_'
}

proof fn lemma_name(k: Seq<char>)
    requires
        is_name(k),
    ensures
        is_key(k),
        text::lower_case(k) == k,
        !document::is_indented(k),
{
    assert(text::is_ascii(k));
    assert(text::lower(k) =~= k);
    assert(k[0] >= 'a' || k[0] == '_');
    assert(k[k.len() - 1] >= 'a' || k[k.len() - 1] == '_');
}

/// A field line adds its field.
proof fn lemma_field_line(n: Noted, k: Seq<char>, v: Seq<char>)
    requires
        is_name(k),
        is_value(v),
        k != "results"@,
        k != "digest"@,
    ensures
        document::with_line(n, k + ": "@ + v) == (Noted {
            place: Place::Top,
            fields: table::put(n.fields, k, v),
            ..n
        }),
{
    lemma_name(k);
    let none = Seq::<char>::empty();
    lemma_pair_line(none, k, v);
    let line = k + ": "@ + v;
    assert(none + k + ": "@ + v =~= line);
    assert(line[0] == k[0]);
}

/// The line that opens the results block.
proof fn lemma_results_line(n: Noted)
    ensures
        document::with_line(n, "results:"@) == (Noted { place: Place::Results, ..n }),
{
    reveal_strlit("results:");
    reveal_strlit("results");
    let k = "results"@;
    let line = "results:"@;
    assert(is_name(k));
    lemma_name(k);
    assert(line =~= k + seq![':'] + Seq::<char>::empty());
    lemma_halves(k, Seq::<char>::empty());
    assert(text::is_trimmed(line));
    text::lemma_trim_fixed(line);
    text::lemma_trim_fixed(k);
    text::lemma_trim_fixed(Seq::<char>::empty());
}

/// A line of the results block adds its pair.
proof fn lemma_result_line(n: Noted, k: Seq<char>, v: Seq<char>)
    requires
        n.place == Place::Results,
        is_key(k),
        is_value(v),
    ensures
        document::with_line(n, "  "@ + k + ": "@ + v) == (Noted { results: table::put(n.results, k, v), ..n }),
{
    reveal_strlit("  ");
    assert(text::all_white("  "@));
    lemma_pair_line("  "@, k, v);
    let line = "  "@ + k + ": "@ + v;
    assert(line[0] == ' ');
}

/// The line that opens the digest block.
proof fn lemma_digest_line(n: Noted)
    ensures
        document::with_line(n, "digest: |"@) == (Noted { place: Place::Digest, ..n }),
{
    reveal_strlit("digest: |");
    reveal_strlit("digest");
    reveal_strlit("results");
    reveal_strlit("|");
    let k = "digest"@;
    let v = seq!['|'];
    let line = "digest: |"@;
    let none = Seq::<char>::empty();
    assert(is_name(k));
    lemma_name(k);
    assert("results"@.len() == 7 && k.len() == 6);
    lemma_pair_line(none, k, v);
    reveal_strlit(": ");
    assert(none + k + ": "@ + v =~= line);
    assert("|"@.contains(v[0])) by {
        assert("|"@[0] == '|');
    }
    assert(v.drop_first() =~= none);
    assert(text::strip_start(none, "|"@) == none);
    assert(text::strip_start(v, "|"@) == none);
    text::lemma_trim_fixed(none);
    assert(n.digest + none =~= n.digest);
}

// ------------------------------------------------------------------------ blocks

/// Lines read after others.
proof fn lemma_noted_push(lines: Seq<Seq<char>>, line: Seq<char>)
    ensures
        document::noted(lines.push(line)) == document::with_line(document::noted(lines), line),
{
    assert(lines.push(line).drop_last() =~= lines);
}

/// The results block, read line by line.
proof fn lemma_results_block(above: Seq<Seq<char>>, results: Seq<(Seq<char>, Seq<char>)>)
    requires
        document::noted(above).place == Place::Results,
        document::noted(above).results.len() == 0,
        table::ordered(results),
        forall|i: int| 0 <= i < results.len() ==> is_key((#[trigger] results[i]).0) && is_value(results[i].1),
    ensures
        document::noted(above + document::result_lines(results)) == (Noted {
            results,
            ..document::noted(above)
        }),
    decreases results.len(),
{
    let n = document::noted(above);
    if results.len() == 0 {
        assert(above + document::result_lines(results) =~= above);
        assert(n.results =~= results);
    } else {
        let head = results.drop_last();
        let (k, v) = results.last();
        assert(results[results.len() - 1] == (k, v));
        assert forall|i: int| 0 <= i < head.len() implies is_key((#[trigger] head[i]).0) && is_value(head[i].1) by {
            assert(head[i] == results[i]);
        }
        assert(table::ordered(head)) by {
            assert forall|i: int, j: int| 0 <= i < j < head.len() implies text::before(
                (#[trigger] head[i]).0,
                (#[trigger] head[j]).0,
            ) by {
                assert(head[i] == results[i] && head[j] == results[j]);
            }
        }
        lemma_results_block(above, head);
        let line = "  "@ + k + ": "@ + v;
        let before = above + document::result_lines(head);
        assert(above + document::result_lines(results) =~= before.push(line));
        lemma_noted_push(before, line);
        lemma_result_line(document::noted(before), k, v);
        assert forall|i: int| 0 <= i < head.len() implies text::before((#[trigger] head[i]).0, k) by {
            assert(head[i] == results[i]);
        }
        table::lemma_put_last(head, k, v);
        assert(head.push((k, v)) =~= results);
    }
}

/// The lines of a tidy text: each is trimmed, and joined they are the text.
proof fn lemma_tidy_lines(s: Seq<char>)
    requires
        is_tidy(s),
        s.len() > 0,
        s.last() != '\n',
    ensures
        split::lines(s).len() > 0,
        forall|i: int| 0 <= i < split::lines(s).len() ==> text::is_trimmed(#[trigger] split::lines(s)[i]),
        split::join(split::lines(s), "\n"@) == s,
        split::lines(s)[0].len() == 0 ==> s[0] == '\n',
    decreases s.len(),
{
    reveal_strlit("\n");
    text::lemma_first_of(s, '\n');
    let k = text::first_of(s, '\n');
    if k >= s.len() {
        assert(split::lines(s) =~= seq![s]);
        assert(s[0] != '\n');
    } else {
        let head = s.take(k);
        let rest = s.skip(k + 1);
        assert(k < s.len() - 1);
        assert(rest.last() == s.last());
        assert(is_tidy(rest)) by {
            assert(rest[0] == s[k + 1]);
            assert(s[k] == '\n');
            assert forall|i: int| 0 <= i < rest.len() - 1 implies (#[trigger] rest[i] == '\n' ==> solid_or_break(
                rest[i + 1],
            )) && (rest[i + 1] == '\n' ==> solid_or_break(rest[i])) by {
                assert(rest[i] == s[i + k + 1]);
                assert(rest[i + 1] == s[i + k + 1 + 1]);
            }
        }
        lemma_tidy_lines(rest);
        if k > 0 {
            assert(s[k - 1 + 1] == '\n');
            assert(s[k - 1] != '\n');
            assert(solid_or_break(s[k - 1]));
            assert(head.last() == s[k - 1]);
            assert(head[0] == s[0]);
        }
        assert(split::line_body(head) == head);
        assert(text::is_trimmed(head));
        let v = split::lines(s);
        assert(v =~= seq![head] + split::lines(rest));
        assert forall|i: int| 0 <= i < v.len() implies text::is_trimmed(#[trigger] v[i]) by {
            if i > 0 {
                assert(v[i] == split::lines(rest)[i - 1]);
            }
        }
        split::lemma_join_cons(head, split::lines(rest), "\n"@);
        assert(head + "\n"@ + rest =~= s);
    }
}

/// The digest block, read line by line, from its first line on.
proof fn lemma_digest_block(above: Seq<Seq<char>>, lines: Seq<Seq<char>>)
    requires
        document::noted(above).place == Place::Digest,
        document::noted(above).digest.len() == 0,
        lines.len() > 0,
        lines[0].len() > 0,
        forall|i: int| 0 <= i < lines.len() ==> text::is_trimmed(#[trigger] lines[i]),
    ensures
        document::noted(above + lines.map_values(|l: Seq<char>| "  "@ + l)) == (Noted {
            digest: split::join(lines, "\n"@),
            ..document::noted(above)
        }),
        split::join(lines, "\n"@).len() > 0,
    decreases lines.len(),
{
    reveal_strlit("  ");
    reveal_strlit("\n");
    let n = document::noted(above);
    let head = lines.drop_last();
    let l = lines.last();
    assert(lines[lines.len() - 1] == l);
    let pad = "  "@;
    let none = Seq::<char>::empty();
    let before = above + head.map_values(|l: Seq<char>| "  "@ + l);
    assert(above + lines.map_values(|l: Seq<char>| "  "@ + l) =~= before.push(pad + l));
    lemma_noted_push(before, pad + l);
    assert(text::all_white(pad));
    assert(text::all_white(none));
    text::lemma_trim_padded(pad, l, none);
    assert(pad + l + none =~= pad + l);
    assert((pad + l)[0] == ' ');
    if lines.len() == 1 {
        assert(before =~= above);
        assert(split::join(lines, "\n"@) == l);
    } else {
        assert forall|i: int| 0 <= i < head.len() implies text::is_trimmed(#[trigger] head[i]) by {
            assert(head[i] == lines[i]);
        }
        lemma_digest_block(above, head);
        let d = split::join(head, "\n"@);
        assert(split::join(lines, "\n"@) =~= d.push('\n') + l);
        if l.len() == 0 {
            assert(d.push('\n') + l =~= d.push('\n'));
        }
    }
}

// ------------------------------------------------------------------ inline lists

/// One item with a space before it, cleaned.
proof fn lemma_item_padded(pad: Seq<char>, s: Seq<char>)
    requires
        text::all_white(pad),
    ensures
        document::list_item(pad + s) == document::list_item(s),
{
    text::lemma_trim_start_white(pad, s);
}

/// Items joined by commas and split at commas are the items.
proof fn lemma_split_items(pad: Seq<char>, items: Seq<Seq<char>>)
    requires
        items.len() > 0,
        text::all_white(pad),
        !pad.contains(','),
        forall|i: int| 0 <= i < items.len() ==> is_item(#[trigger] items[i]),
    ensures
        split::split(pad + split::join(items, ", "@), split::Cut::Any(","@)).map_values(
            |p: Seq<char>| document::list_item(p),
        ) == items,
    decreases items.len(),
{
    reveal_strlit(", ");
    reveal_strlit(",");
    let at = split::Cut::Any(","@);
    let f = |p: Seq<char>| document::list_item(p);
    let first = pad + items[0];
    lemma_item_padded(pad, items[0]);
    assert forall|j: int| 0 <= j < first.len() implies !split::cuts(at, first[j]) by {
        assert(","@[0] == ',');
        if j < pad.len() {
            assert(first[j] == pad[j]);
            assert(pad.contains(pad[j]));
        } else {
            assert(first[j] == items[0][j - pad.len()]);
            assert(items[0].contains(items[0][j - pad.len()]));
        }
    }
    let s = pad + split::join(items, ", "@);
    if items.len() == 1 {
        assert(s =~= first);
        split::lemma_first_cut_is(s, at, s.len() as int);
        assert(split::split(s, at) =~= seq![first]);
        assert(split::split(s, at).map_values(f) =~= items);
    } else {
        let rest = items.drop_first();
        assert(items =~= seq![items[0]] + rest);
        assert forall|i: int| 0 <= i < rest.len() implies is_item(#[trigger] rest[i]) by {
            assert(rest[i] == items[i + 1]);
        }
        split::lemma_join_cons(items[0], rest, ", "@);
        let gap = seq![' '];
        let tail = gap + split::join(rest, ", "@);
        assert(s =~= first + seq![','] + tail);
        let k = first.len() as int;
        assert forall|j: int| 0 <= j < k implies !split::cuts(at, s[j]) by {
            assert(s[j] == first[j]);
        }
        assert(s[k] == ',');
        assert(split::cuts(at, s[k])) by {
            assert(","@[0] == ',');
        }
        split::lemma_first_cut_is(s, at, k);
        assert(s.take(k) =~= first);
        assert(s.skip(k + 1) =~= tail);
        assert(text::all_white(gap));
        lemma_split_items(gap, rest);
        assert(split::split(s, at) =~= seq![first] + split::split(tail, at));
        assert(split::split(s, at).map_values(f) =~= seq![items[0]] + split::split(tail, at).map_values(f));
    }
}

/// Pieces of which none is empty.
proof fn lemma_solid(v: Seq<Seq<char>>)
    requires
        forall|i: int| 0 <= i < v.len() ==> (#[trigger] v[i]).len() > 0,
    ensures
        split::solid(v) == v,
    decreases v.len(),
{
    if v.len() > 0 {
        let rest = v.drop_first();
        assert forall|i: int| 0 <= i < rest.len() implies (#[trigger] rest[i]).len() > 0 by {
            assert(rest[i] == v[i + 1]);
        }
        lemma_solid(rest);
        assert(v[0].len() > 0);
        assert(seq![v[0]] + rest =~= v);
    }
}

/// A written list is read back.
proof fn lemma_inline_list(items: Seq<Seq<char>>)
    requires
        forall|i: int| 0 <= i < items.len() ==> is_item(#[trigger] items[i]),
    ensures
        document::inline_list("["@ + split::join(items, ", "@) + "]"@) == items,
{
    reveal_strlit("[");
    reveal_strlit("]");
    reveal_strlit(",");
    let inner = split::join(items, ", "@);
    let v = "["@ + inner + "]"@;
    let at = split::Cut::Any(","@);
    let f = |p: Seq<char>| document::list_item(p);
    assert(v[0] == '[');
    assert(v.last() == ']');
    text::lemma_trim_fixed(v);
    assert(v.take(1) =~= "["@);
    let a = text::without_prefix(v, "["@);
    assert(a =~= inner + "]"@);
    assert(a.skip(a.len() - 1) =~= "]"@);
    let b = text::without_suffix(a, "]"@);
    assert(b =~= inner);
    if items.len() == 0 {
        assert(inner =~= seq![]);
        let parts = split::split(inner, at);
        split::lemma_first_cut_is(inner, at, 0);
        assert(parts =~= seq![inner]);
        reveal_strlit("\"");
        reveal_strlit("'");
        assert(document::list_item(inner) =~= seq![]);
        let m = parts.map_values(f);
        assert(m =~= seq![inner]);
        assert(m.drop_first() =~= seq![]);
        assert(split::solid(m.drop_first()) =~= seq![]);
        assert(split::solid(m) =~= items);
    } else {
        let none = Seq::<char>::empty();
        assert(none + inner =~= inner);
        lemma_split_items(none, items);
        lemma_solid(items);
    }
}

// ------------------------------------------------------------------- the round trip

/// An artifact goes by its own name.
pub proof fn lemma_artifact_named(a: Artifact)
    ensures
        document::artifact_named(a.label()) == Some(a),
        a.label().len() > 0,
        text::is_trimmed(a.label()),
        !a.label().contains('\n'),
{
    reveal_strlit("Task");
    reveal_strlit("Requirements");
    reveal_strlit("Plan");
    reveal_strlit("Patch");
    reveal_strlit("Findings");
    reveal_strlit("SystemMap");
    reveal_strlit("RiskAssessment");
    reveal_strlit("TestSurface");
    reveal_strlit("TestPlan");
    reveal_strlit("TestSuite");
    reveal_strlit("TestReport");
    reveal_strlit("Triage");
    reveal_strlit("ForemanLog");
    reveal_strlit("Report");
    assert("Task"@.len() == 4);
    assert("Requirements"@.len() == 12);
    assert("Plan"@.len() == 4);
    assert("Patch"@.len() == 5);
    assert("Findings"@.len() == 8);
    assert("SystemMap"@.len() == 9);
    assert("RiskAssessment"@.len() == 14);
    assert("TestSurface"@.len() == 11);
    assert("TestPlan"@.len() == 8);
    assert("TestSuite"@.len() == 9);
    assert("TestReport"@.len() == 10);
    assert("Triage"@.len() == 6);
    assert("ForemanLog"@.len() == 10);
    assert("Report"@.len() == 6);
    assert("Task"@[0] == 'T' && "Plan"@[0] == 'P');
    assert("Findings"@[0] == 'F' && "TestPlan"@[0] == 'T');
    assert("SystemMap"@[0] == 'S' && "TestSuite"@[0] == 'T');
    assert("TestReport"@[0] == 'T' && "ForemanLog"@[0] == 'F');
    assert("Triage"@[0] == 'T' && "Report"@[0] == 'R');
}

/// The `inputs` field as it is written.
spec fn list_text(c: Content) -> Seq<char> {
    "["@ + split::join(c.inputs, ", "@) + "]"@
}

/// The fields that a written header carries.
spec fn written_fields(c: Content) -> Seq<(Seq<char>, Seq<char>)> {
    let none = Seq::<(Seq<char>, Seq<char>)>::empty();
    let f0 = table::put(none, "artifact"@, c.artifact.label());
    let f1 = table::put(f0, "run"@, c.run);
    let f2 = table::put(f1, "node"@, c.node);
    let f3 = table::put(f2, "attempt"@, digits::decimal(c.attempt));
    let f4 = table::put(f3, "model"@, c.model);
    let f5 = table::put(f4, "created"@, c.created);
    let f6 = table::put(f5, "inputs"@, list_text(c));
    if c.authored_by_human {
        table::put(f6, "authored_by_human"@, "true"@)
    } else {
        f6
    }
}

/// Items without line breaks, joined by a text without them.
proof fn lemma_join_on_one_line(items: Seq<Seq<char>>, sep: Seq<char>)
    requires
        !sep.contains('\n'),
        forall|i: int| 0 <= i < items.len() ==> !(#[trigger] items[i]).contains('\n'),
    ensures
        !split::join(items, sep).contains('\n'),
    decreases items.len(),
{
    if items.len() > 1 {
        let head = items.drop_last();
        assert forall|i: int| 0 <= i < head.len() implies !(#[trigger] head[i]).contains('\n') by {
            assert(head[i] == items[i]);
        }
        lemma_join_on_one_line(head, sep);
        let a = split::join(head, sep);
        let b = items.last();
        assert(!items[items.len() - 1].contains('\n'));
        let s = a + sep + b;
        assert forall|i: int| 0 <= i < s.len() implies s[i] != '\n' by {
            if i < a.len() {
                assert(a.contains(a[i]));
            } else if i < a.len() + sep.len() {
                assert(sep.contains(sep[i - a.len()]));
            } else {
                assert(b.contains(b[i - a.len() - sep.len()]));
            }
        }
    } else if items.len() == 1 {
        assert(!items[0].contains('\n'));
    }
}

/// The `inputs` field is a value.
proof fn lemma_list_text(c: Content)
    requires
        forall|i: int| 0 <= i < c.inputs.len() ==> is_item(#[trigger] c.inputs[i]),
    ensures
        is_value(list_text(c)),
{
    reveal_strlit("[");
    reveal_strlit("]");
    reveal_strlit(", ");
    lemma_join_on_one_line(c.inputs, ", "@);
    let j = split::join(c.inputs, ", "@);
    let v = list_text(c);
    assert(v[0] == '[' && v.last() == ']');
    assert forall|i: int| 0 <= i < v.len() implies v[i] != '\n' by {
        if 0 < i < v.len() - 1 {
            assert(v[i] == j[i - 1]);
            assert(j.contains(j[i - 1]));
        }
    }
}

/// A written number is a value.
proof fn lemma_decimal_value(n: nat)
    ensures
        is_value(digits::decimal(n)),
{
    digits::lemma_decimal(n);
    let d = digits::decimal(n);
    assert(digits::is_digit(d[0]));
    assert(digits::is_digit(d[d.len() - 1]));
    assert forall|i: int| 0 <= i < d.len() implies d[i] != '\n' by {
        assert(digits::is_digit(d[i]));
    }
}

/// The names of the fields, taken apart and told apart.
proof fn lemma_names()
    ensures
        is_name("artifact"@),
        "artifact"@ != "results"@,
        "artifact"@ != "digest"@,
        is_name("run"@),
        "run"@ != "results"@,
        "run"@ != "digest"@,
        is_name("node"@),
        "node"@ != "results"@,
        "node"@ != "digest"@,
        is_name("attempt"@),
        "attempt"@ != "results"@,
        "attempt"@ != "digest"@,
        is_name("model"@),
        "model"@ != "results"@,
        "model"@ != "digest"@,
        is_name("created"@),
        "created"@ != "results"@,
        "created"@ != "digest"@,
        is_name("inputs"@),
        "inputs"@ != "results"@,
        "inputs"@ != "digest"@,
        is_name("authored_by_human"@),
        "authored_by_human"@ != "results"@,
        "authored_by_human"@ != "digest"@,
        "artifact: "@ == "artifact"@ + ": "@,
        "run: "@ == "run"@ + ": "@,
        "node: "@ == "node"@ + ": "@,
        "attempt: "@ == "attempt"@ + ": "@,
        "model: "@ == "model"@ + ": "@,
        "created: "@ == "created"@ + ": "@,
        "inputs: ["@ == "inputs"@ + ": "@ + "["@,
        "authored_by_human: true"@ == "authored_by_human"@ + ": "@ + "true"@,
        is_value("true"@),
{
    reveal_strlit(": ");
    reveal_strlit("[");
    reveal_strlit("true");
    reveal_strlit("inputs: [");
    reveal_strlit("authored_by_human: true");
    reveal_strlit("results");
    reveal_strlit("digest");
    reveal_strlit("artifact");
    reveal_strlit("artifact: ");
    reveal_strlit("run");
    reveal_strlit("run: ");
    reveal_strlit("node");
    reveal_strlit("node: ");
    reveal_strlit("attempt");
    reveal_strlit("attempt: ");
    reveal_strlit("model");
    reveal_strlit("model: ");
    reveal_strlit("created");
    reveal_strlit("created: ");
    reveal_strlit("inputs");
    reveal_strlit("authored_by_human");
    assert("artifact"@.len() == 8);
    assert("run"@.len() == 3);
    assert("node"@.len() == 4);
    assert("attempt"@.len() == 7);
    assert("model"@.len() == 5);
    assert("created"@.len() == 7);
    assert("inputs"@.len() == 6);
    assert("authored_by_human"@.len() == 17);
    assert("results"@.len() == 7);
    assert("digest"@.len() == 6);
    assert("results"@[0] == 'r');
    assert("digest"@[0] == 'd');
    assert("attempt"@[0] == 'a');
    assert("created"@[0] == 'c');
    assert("inputs"@[0] == 'i');
    assert("artifact: "@ =~= "artifact"@ + ": "@);
    assert("run: "@ =~= "run"@ + ": "@);
    assert("node: "@ =~= "node"@ + ": "@);
    assert("attempt: "@ =~= "attempt"@ + ": "@);
    assert("model: "@ =~= "model"@ + ": "@);
    assert("created: "@ =~= "created"@ + ": "@);
    assert("inputs: ["@ =~= "inputs"@ + ": "@ + "["@);
    assert("authored_by_human: true"@ =~= "authored_by_human"@ + ": "@ + "true"@);
}

/// The names of the fields differ.
proof fn lemma_names_differ()
    ensures
        "artifact"@ != "run"@,
        "artifact"@ != "node"@,
        "artifact"@ != "attempt"@,
        "artifact"@ != "model"@,
        "artifact"@ != "created"@,
        "artifact"@ != "inputs"@,
        "artifact"@ != "authored_by_human"@,
        "run"@ != "node"@,
        "run"@ != "attempt"@,
        "run"@ != "model"@,
        "run"@ != "created"@,
        "run"@ != "inputs"@,
        "run"@ != "authored_by_human"@,
        "node"@ != "attempt"@,
        "node"@ != "model"@,
        "node"@ != "created"@,
        "node"@ != "inputs"@,
        "node"@ != "authored_by_human"@,
        "attempt"@ != "model"@,
        "attempt"@ != "created"@,
        "attempt"@ != "inputs"@,
        "attempt"@ != "authored_by_human"@,
        "model"@ != "created"@,
        "model"@ != "inputs"@,
        "model"@ != "authored_by_human"@,
        "created"@ != "inputs"@,
        "created"@ != "authored_by_human"@,
        "inputs"@ != "authored_by_human"@,
{
    reveal_strlit("artifact");
    reveal_strlit("run");
    reveal_strlit("node");
    reveal_strlit("attempt");
    reveal_strlit("model");
    reveal_strlit("created");
    reveal_strlit("inputs");
    reveal_strlit("authored_by_human");
    assert("artifact"@.len() == 8);
    assert("run"@.len() == 3);
    assert("node"@.len() == 4);
    assert("attempt"@.len() == 7);
    assert("model"@.len() == 5);
    assert("created"@.len() == 7);
    assert("inputs"@.len() == 6);
    assert("authored_by_human"@.len() == 17);
    assert("attempt"@[0] == 'a' && "created"@[0] == 'c');
    assert("node"@.len() == 4 && "model"@.len() == 5);
}

/// A field, found past the fields that were put after it.
proof fn lemma_written_fields(c: Content)
    ensures
        table::lookup(written_fields(c), "artifact"@) == Some(c.artifact.label()),
        table::lookup(written_fields(c), "run"@) == Some(c.run),
        table::lookup(written_fields(c), "node"@) == Some(c.node),
        table::lookup(written_fields(c), "attempt"@) == Some(digits::decimal(c.attempt)),
        table::lookup(written_fields(c), "model"@) == Some(c.model),
        table::lookup(written_fields(c), "created"@) == Some(c.created),
        table::lookup(written_fields(c), "inputs"@) == Some(list_text(c)),
        table::lookup(written_fields(c), "authored_by_human"@) == if c.authored_by_human {
            Some("true"@)
        } else {
            None
        },
{
    lemma_names_differ();
    let none = Seq::<(Seq<char>, Seq<char>)>::empty();
    let f0 = table::put(none, "artifact"@, c.artifact.label());
    let f1 = table::put(f0, "run"@, c.run);
    let f2 = table::put(f1, "node"@, c.node);
    let f3 = table::put(f2, "attempt"@, digits::decimal(c.attempt));
    let f4 = table::put(f3, "model"@, c.model);
    let f5 = table::put(f4, "created"@, c.created);
    let f6 = table::put(f5, "inputs"@, list_text(c));
    table::lemma_lookup_put_same(none, "artifact"@, c.artifact.label());
    table::lemma_lookup_put_other(f0, "run"@, c.run, "artifact"@);
    table::lemma_lookup_put_other(f1, "node"@, c.node, "artifact"@);
    table::lemma_lookup_put_other(f2, "attempt"@, digits::decimal(c.attempt), "artifact"@);
    table::lemma_lookup_put_other(f3, "model"@, c.model, "artifact"@);
    table::lemma_lookup_put_other(f4, "created"@, c.created, "artifact"@);
    table::lemma_lookup_put_other(f5, "inputs"@, list_text(c), "artifact"@);
    table::lemma_lookup_put_other(f6, "authored_by_human"@, "true"@, "artifact"@);
    table::lemma_lookup_put_same(f0, "run"@, c.run);
    table::lemma_lookup_put_other(f1, "node"@, c.node, "run"@);
    table::lemma_lookup_put_other(f2, "attempt"@, digits::decimal(c.attempt), "run"@);
    table::lemma_lookup_put_other(f3, "model"@, c.model, "run"@);
    table::lemma_lookup_put_other(f4, "created"@, c.created, "run"@);
    table::lemma_lookup_put_other(f5, "inputs"@, list_text(c), "run"@);
    table::lemma_lookup_put_other(f6, "authored_by_human"@, "true"@, "run"@);
    table::lemma_lookup_put_same(f1, "node"@, c.node);
    table::lemma_lookup_put_other(f2, "attempt"@, digits::decimal(c.attempt), "node"@);
    table::lemma_lookup_put_other(f3, "model"@, c.model, "node"@);
    table::lemma_lookup_put_other(f4, "created"@, c.created, "node"@);
    table::lemma_lookup_put_other(f5, "inputs"@, list_text(c), "node"@);
    table::lemma_lookup_put_other(f6, "authored_by_human"@, "true"@, "node"@);
    table::lemma_lookup_put_same(f2, "attempt"@, digits::decimal(c.attempt));
    table::lemma_lookup_put_other(f3, "model"@, c.model, "attempt"@);
    table::lemma_lookup_put_other(f4, "created"@, c.created, "attempt"@);
    table::lemma_lookup_put_other(f5, "inputs"@, list_text(c), "attempt"@);
    table::lemma_lookup_put_other(f6, "authored_by_human"@, "true"@, "attempt"@);
    table::lemma_lookup_put_same(f3, "model"@, c.model);
    table::lemma_lookup_put_other(f4, "created"@, c.created, "model"@);
    table::lemma_lookup_put_other(f5, "inputs"@, list_text(c), "model"@);
    table::lemma_lookup_put_other(f6, "authored_by_human"@, "true"@, "model"@);
    table::lemma_lookup_put_same(f4, "created"@, c.created);
    table::lemma_lookup_put_other(f5, "inputs"@, list_text(c), "created"@);
    table::lemma_lookup_put_other(f6, "authored_by_human"@, "true"@, "created"@);
    table::lemma_lookup_put_same(f5, "inputs"@, list_text(c));
    table::lemma_lookup_put_other(f6, "authored_by_human"@, "true"@, "inputs"@);
    table::lemma_lookup_put_same(f6, "authored_by_human"@, "true"@);
    table::lemma_lookup_put_other(none, "artifact"@, c.artifact.label(), "authored_by_human"@);
    table::lemma_lookup_put_other(f0, "run"@, c.run, "authored_by_human"@);
    table::lemma_lookup_put_other(f1, "node"@, c.node, "authored_by_human"@);
    table::lemma_lookup_put_other(f2, "attempt"@, digits::decimal(c.attempt), "authored_by_human"@);
    table::lemma_lookup_put_other(f3, "model"@, c.model, "authored_by_human"@);
    table::lemma_lookup_put_other(f4, "created"@, c.created, "authored_by_human"@);
    table::lemma_lookup_put_other(f5, "inputs"@, list_text(c), "authored_by_human"@);
}

/// The field lines, read.
proof fn lemma_field_lines<T: Tokenizer + ?Sized>(c: Content, tok: &T)
    requires
        is_canonical(c, tok),
    ensures
        document::noted(document::field_lines(c)) == (Noted {
            fields: written_fields(c),
            results: seq![],
            digest: seq![],
            place: Place::Top,
        }),
{
    lemma_names();
    lemma_artifact_named(c.artifact);
    lemma_decimal_value(c.attempt);
    lemma_list_text(c);
    let s0 = Seq::<Seq<char>>::empty();
    let l0 = "artifact"@ + ": "@ + c.artifact.label();
    lemma_noted_push(s0, l0);
    lemma_field_line(document::noted(s0), "artifact"@, c.artifact.label());
    let s1 = s0.push(l0);
    let l1 = "run"@ + ": "@ + c.run;
    lemma_noted_push(s1, l1);
    lemma_field_line(document::noted(s1), "run"@, c.run);
    let s2 = s1.push(l1);
    let l2 = "node"@ + ": "@ + c.node;
    lemma_noted_push(s2, l2);
    lemma_field_line(document::noted(s2), "node"@, c.node);
    let s3 = s2.push(l2);
    let l3 = "attempt"@ + ": "@ + digits::decimal(c.attempt);
    lemma_noted_push(s3, l3);
    lemma_field_line(document::noted(s3), "attempt"@, digits::decimal(c.attempt));
    let s4 = s3.push(l3);
    let l4 = "model"@ + ": "@ + c.model;
    lemma_noted_push(s4, l4);
    lemma_field_line(document::noted(s4), "model"@, c.model);
    let s5 = s4.push(l4);
    let l5 = "created"@ + ": "@ + c.created;
    lemma_noted_push(s5, l5);
    lemma_field_line(document::noted(s5), "created"@, c.created);
    let s6 = s5.push(l5);
    let l6 = "inputs"@ + ": "@ + list_text(c);
    lemma_noted_push(s6, l6);
    lemma_field_line(document::noted(s6), "inputs"@, list_text(c));
    let s7 = s6.push(l6);
    assert(l6 =~= "inputs: ["@ + split::join(c.inputs, ", "@) + "]"@);
    if c.authored_by_human {
        let l7 = "authored_by_human"@ + ": "@ + "true"@;
        lemma_noted_push(s7, l7);
        lemma_field_line(document::noted(s7), "authored_by_human"@, "true"@);
        assert(document::field_lines(c) =~= s7.push(l7));
    } else {
        assert(document::field_lines(c) =~= s7);
    }
}

/// The whole header, read.
proof fn lemma_header_lines<T: Tokenizer + ?Sized>(c: Content, tok: &T)
    requires
        is_canonical(c, tok),
    ensures
        document::noted(document::header_lines(c)) == (Noted {
            fields: written_fields(c),
            results: c.results,
            digest: c.digest,
            place: Place::Digest,
        }),
{
    lemma_field_lines(c, tok);
    let a = document::field_lines(c);
    lemma_noted_push(a, "results:"@);
    lemma_results_line(document::noted(a));
    let b = a.push("results:"@);
    lemma_results_block(b, c.results);
    let d = b + document::result_lines(c.results);
    lemma_noted_push(d, "digest: |"@);
    lemma_digest_line(document::noted(d));
    let e = d.push("digest: |"@);
    lemma_tidy_lines(c.digest);
    lemma_digest_block(e, split::lines(c.digest));
    assert(document::header_lines(c) =~= e + document::digest_lines(c.digest));
}


/// Whether a line belongs to a header: it is read back as it was written, and it
/// is not the one that closes the header.
spec fn is_header_line(l: Seq<char>) -> bool {
    split::is_line(l) && l.len() > 0 && l[0] != '-'
}

proof fn lemma_header_line(prefix: Seq<char>, v: Seq<char>)
    requires
        is_header_line(prefix),
        is_value(v),
    ensures
        is_header_line(prefix + v),
{
    let l = prefix + v;
    assert(l[0] == prefix[0]);
    if v.len() > 0 {
        assert(l.last() == v.last());
    } else {
        assert(l =~= prefix);
    }
    assert forall|i: int| 0 <= i < l.len() implies l[i] != '\n' by {
        if i < prefix.len() {
            assert(prefix.contains(prefix[i]));
        } else {
            assert(v.contains(v[i - prefix.len()]));
        }
    }
}

proof fn lemma_field_lines_are_header_lines<T: Tokenizer + ?Sized>(c: Content, tok: &T)
    requires
        is_canonical(c, tok),
    ensures
        forall|i: int|
            0 <= i < document::field_lines(c).len() ==> is_header_line(#[trigger] document::field_lines(c)[i]),
{
    reveal_strlit("artifact: ");
    reveal_strlit("run: ");
    reveal_strlit("node: ");
    reveal_strlit("attempt: ");
    reveal_strlit("model: ");
    reveal_strlit("created: ");
    reveal_strlit("inputs");
    reveal_strlit(": ");
    reveal_strlit("authored_by_human: true");
    lemma_names();
    lemma_artifact_named(c.artifact);
    lemma_decimal_value(c.attempt);
    lemma_list_text(c);
    lemma_header_line("artifact: "@, c.artifact.label());
    lemma_header_line("run: "@, c.run);
    lemma_header_line("node: "@, c.node);
    lemma_header_line("attempt: "@, digits::decimal(c.attempt));
    lemma_header_line("model: "@, c.model);
    lemma_header_line("created: "@, c.created);
    lemma_header_line("inputs"@ + ": "@, list_text(c));
    assert("inputs: ["@ + split::join(c.inputs, ", "@) + "]"@ =~= "inputs"@ + ": "@ + list_text(c));
}

proof fn lemma_header_lines_are_header_lines<T: Tokenizer + ?Sized>(c: Content, tok: &T)
    requires
        is_canonical(c, tok),
    ensures
        forall|i: int|
            0 <= i < document::header_lines(c).len() ==> is_header_line(#[trigger] document::header_lines(c)[i]),
{
    reveal_strlit("results:");
    reveal_strlit("digest: |");
    reveal_strlit("  ");
    reveal_strlit(": ");
    lemma_field_lines_are_header_lines(c, tok);
    lemma_tidy_lines(c.digest);
    split::lemma_lines_hold_no_terminator(c.digest);
    let f = document::field_lines(c);
    let r = document::result_lines(c.results);
    let d = document::digest_lines(c.digest);
    let all = document::header_lines(c);
    assert forall|i: int| 0 <= i < r.len() implies is_header_line(#[trigger] r[i]) by {
        let (k, v) = c.results[i];
        lemma_header_line("  "@, k);
        let prefix = "  "@ + k + ": "@;
        assert(is_header_line(prefix)) by {
            assert(prefix[0] == ' ');
            assert(prefix.last() == ' ');
            assert forall|j: int| 0 <= j < prefix.len() implies prefix[j] != '\n' by {
                if 2 <= j < 2 + k.len() {
                    assert(k.contains(k[j - 2]));
                }
            }
        }
        lemma_header_line(prefix, v);
    }
    assert forall|i: int| 0 <= i < d.len() implies is_header_line(#[trigger] d[i]) by {
        assert(text::is_trimmed(split::lines(c.digest)[i]));
        lemma_header_line("  "@, split::lines(c.digest)[i]);
    }
    assert forall|i: int| 0 <= i < all.len() implies is_header_line(#[trigger] all[i]) by {
        if i < f.len() {
            assert(all[i] == f[i]);
        } else if i == f.len() {
            assert(all[i] == "results:"@);
        } else if i < f.len() + 1 + r.len() {
            assert(all[i] == r[i - f.len() - 1]);
        } else if i == f.len() + 1 + r.len() {
            assert(all[i] == "digest: |"@);
        } else {
            assert(all[i] == d[i - f.len() - 2 - r.len()]);
        }
    }
}

/// The rows of a written document.
proof fn lemma_rows<T: Tokenizer + ?Sized>(c: Content, tok: &T)
    requires
        is_canonical(c, tok),
    ensures
        document::opened(document::rendered(c)) == Some(
            document::header_lines(c) + seq!["---"@, ""@] + split::lines(c.body + seq!['\n']),
        ),
        document::closing_line(
            document::header_lines(c) + seq!["---"@, ""@] + split::lines(c.body + seq!['\n']),
        ) == document::header_lines(c).len(),
{
    reveal_strlit("---");
    reveal_strlit("");
    reveal_strlit("\u{feff}");
    reveal_strlit("\n");
    let h = document::header_lines(c);
    let closing = seq!["---"@, ""@];
    let below = c.body + seq!['\n'];
    lemma_header_lines_are_header_lines(c, tok);
    let text = document::rendered(c);
    let one = seq!["---"@];
    assert(one + h + closing =~= one + (h + closing));
    split::lemma_unlines_add(one, h + closing);
    assert(one.drop_last() =~= seq![]);
    assert(split::unlines(one.drop_last()) =~= seq![]);
    assert(split::unlines(one) =~= "---"@ + seq!['\n']);
    let rest = split::unlines(h + closing) + below;
    assert(text =~= "---"@ + seq!['\n'] + rest);
    assert(text[0] == '-');
    assert(text::strip_start(text, "\u{feff}"@) == text);
    assert(text::trim_start(text) == text);
    assert(text.take(3) =~= "---"@);
    let after = text.skip(3);
    assert(after =~= seq!['\n'] + rest);
    assert(after.take(1) =~= "\n"@);
    assert(after.skip(1) =~= rest);
    let hc = h + closing;
    assert forall|i: int| 0 <= i < hc.len() implies split::is_line(#[trigger] hc[i]) by {
        if i < h.len() {
            assert(is_header_line(h[i]));
        } else if i == h.len() {
            assert(hc[i] == "---"@);
        } else {
            assert(hc[i] == ""@);
        }
    }
    split::lemma_lines_of_unlines(hc, below);
    let rows = h + closing + split::lines(below);
    assert(rows =~= hc + split::lines(below));
    assert forall|j: int| 0 <= j < h.len() implies text::trim_end(#[trigger] rows[j]) != "---"@ by {
        assert(rows[j] == h[j]);
        assert(is_header_line(h[j]));
        text::lemma_trim_end(h[j]);
        if text::trim_end(h[j]) == "---"@ {
            assert(text::trim_end(h[j])[0] == '-');
        }
    }
    assert(rows[h.len() as int] == "---"@);
    text::lemma_trim_fixed("---"@);
    document::lemma_closing_line_is(rows, h.len() as int);
}

/// What is below the header of a written document.
proof fn lemma_below(body: Seq<char>)
    requires
        body.len() > 0,
        body[0] != '\n',
        !text::is_white(body.last()),
        !split::has_crlf(body),
    ensures
        text::trim_end(
            text::strip_start(split::unlines(seq![""@] + split::lines(body + seq!['\n'])), "\n"@),
        ) == body,
{
    reveal_strlit("");
    reveal_strlit("\n");
    let s = body + seq!['\n'];
    if split::has_crlf(s) {
        let i = choose|i: int| 0 <= i < s.len() - 1 && #[trigger] s[i] == '\r' && s[i + 1] == '\n';
        assert(s[i] == body[i]);
        if i < body.len() - 1 {
            assert(s[i + 1] == body[i + 1]);
        }
    }
    split::lemma_unlines_of_lines(s);
    let one = seq![""@];
    split::lemma_unlines_add(one, split::lines(s));
    assert(one.drop_last() =~= seq![]);
    assert(split::unlines(one.drop_last()) =~= seq![]);
    assert(split::unlines(one) =~= seq!['\n']);
    let t = split::unlines(one + split::lines(s));
    assert(t =~= seq!['\n'] + s);
    assert("\n"@[0] == '\n');
    assert(t.drop_first() =~= s);
    assert(s[0] == body[0]);
    assert(text::strip_start(s, "\n"@) == s);
    assert(text::strip_start(t, "\n"@) == s);
    text::lemma_trim_end_white(body, seq!['\n']);
}

/// A document that can be read back is: reading what it is written as gives the
/// same document again.
pub proof fn law_rendered_is_parsed<T: Tokenizer + ?Sized>(c: Content, tok: &T)
    requires
        is_canonical(c, tok),
    ensures
        document::parsed(document::rendered(c), tok) == Ok::<Content, Fault>(c),
{
    let h = document::header_lines(c);
    let rows = h + seq!["---"@, ""@] + split::lines(c.body + seq!['\n']);
    let k = h.len() as int;
    lemma_rows(c, tok);
    lemma_header_lines(c, tok);
    lemma_written_fields(c);
    lemma_artifact_named(c.artifact);
    lemma_decimal_value(c.attempt);
    digits::lemma_decimal(c.attempt);
    digits::lemma_number_of_decimal(c.attempt, u32::MAX as nat);
    lemma_inline_list(c.inputs);
    lemma_below(c.body);
    text::lemma_trim_fixed(c.artifact.label());
    text::lemma_trim_fixed(digits::decimal(c.attempt));
    text::lemma_trim_fixed(c.digest);
    assert(rows.take(k) =~= h);
    assert(rows.skip(k + 1) =~= seq![""@] + split::lines(c.body + seq!['\n']));
}

// ------------------------------------------------------------ what parsing yields

/// What holds of everything noted from lines without line breaks.
spec fn is_clean(n: Noted) -> bool {
    &&& forall|i: int| 0 <= i < n.fields.len() ==> is_value((#[trigger] n.fields[i]).1)
    &&& clean_results(n.results)
    &&& is_tidy(n.digest)
}

spec fn clean_results(r: Seq<(Seq<char>, Seq<char>)>) -> bool {
    &&& table::ordered(r)
    &&& forall|i: int| 0 <= i < r.len() ==> is_key((#[trigger] r[i]).0) && is_value(r[i].1)
}

/// What is put somewhere in a table is what was put or what was there.
proof fn lemma_put_entry(s: Seq<(Seq<char>, Seq<char>)>, k: Seq<char>, v: Seq<char>, i: int)
    requires
        0 <= i < table::put(s, k, v).len(),
    ensures
        table::put(s, k, v)[i] == (k, v) || s.contains(table::put(s, k, v)[i]),
    decreases s.len(),
{
    let p = table::put(s, k, v);
    if s.len() == 0 {
    } else if s[0].0 == k {
        if i > 0 {
            assert(p[i] == s[i]);
        }
    } else if text::before(k, s[0].0) {
        if i > 0 {
            assert(p[i] == s[i - 1]);
        }
    } else if i == 0 {
        assert(p[0] == s[0]);
    } else {
        let rest = s.drop_first();
        lemma_put_entry(rest, k, v, i - 1);
        assert(p[i] == table::put(rest, k, v)[i - 1]);
        if rest.contains(p[i]) {
            let j = choose|j: int| 0 <= j < rest.len() && rest[j] == p[i];
            assert(s[j + 1] == p[i]);
        }
    }
}

/// The two sides of the first `:` hold nothing that the text does not.
proof fn lemma_halves_of(s: Seq<char>)
    requires
        !s.contains('\n'),
    ensures
        split::halves(s, ':') matches Some((k, v)) ==> is_key(text::trim(k)) && is_value(text::trim(v)),
{
    if let Some((k, v)) = split::halves(s, ':') {
        text::lemma_first_of(s, ':');
        text::lemma_trim(k);
        text::lemma_trim(v);
        let p = text::first_of(s, ':');
        assert forall|i: int| 0 <= i < k.len() implies k[i] != '\n' && k[i] != ':' by {
            assert(k[i] == s[i]);
            assert(s.contains(s[i]));
        }
        assert forall|i: int| 0 <= i < v.len() implies v[i] != '\n' by {
            assert(v[i] == s[i + p + 1]);
            assert(s.contains(s[i + p + 1]));
        }
        assert(!k.contains('\n') && !k.contains(':'));
        assert(!v.contains('\n'));
        assert(!text::trim(k).contains('\n') && !text::trim(k).contains(':'));
        assert(!text::trim(v).contains('\n'));
    }
}

proof fn lemma_with_pair(r: Seq<(Seq<char>, Seq<char>)>, pair: Seq<char>)
    requires
        clean_results(r),
        !pair.contains('\n'),
    ensures
        clean_results(document::with_pair(r, pair)),
{
    lemma_halves_of(pair);
    if let Some((k, v)) = split::halves(pair, ':') {
        let key = text::trim(k);
        let value = text::trim(v);
        table::lemma_put_ordered(r, key, value);
        let p = table::put(r, key, value);
        assert forall|i: int| 0 <= i < p.len() implies is_key((#[trigger] p[i]).0) && is_value(p[i].1) by {
            lemma_put_entry(r, key, value, i);
            if p[i] != (key, value) {
                let j = choose|j: int| 0 <= j < r.len() && r[j] == p[i];
                assert(is_key(r[j].0));
            }
        }
    }
}

proof fn lemma_with_pairs(r: Seq<(Seq<char>, Seq<char>)>, pairs: Seq<Seq<char>>)
    requires
        clean_results(r),
        forall|i: int| 0 <= i < pairs.len() ==> !(#[trigger] pairs[i]).contains('\n'),
    ensures
        clean_results(document::with_pairs(r, pairs)),
    decreases pairs.len(),
{
    if pairs.len() > 0 {
        let head = pairs.drop_last();
        assert forall|i: int| 0 <= i < head.len() implies !(#[trigger] head[i]).contains('\n') by {
            assert(head[i] == pairs[i]);
        }
        lemma_with_pairs(r, head);
        assert(!pairs[pairs.len() - 1].contains('\n'));
        lemma_with_pair(document::with_pairs(r, head), pairs.last());
    }
}

/// Stripping takes nothing in.
proof fn lemma_strip_start_part(s: Seq<char>, set: Seq<char>)
    ensures
        forall|c: char| text::strip_start(s, set).contains(c) ==> s.contains(c),
        text::strip_start(s, set).len() > 0 ==> !set.contains(text::strip_start(s, set)[0]),
    decreases s.len(),
{
    if s.len() > 0 && set.contains(s[0]) {
        let t = s.drop_first();
        lemma_strip_start_part(t, set);
        assert forall|c: char| t.contains(c) implies s.contains(c) by {
            let i = choose|i: int| 0 <= i < t.len() && t[i] == c;
            assert(s[i + 1] == c);
        }
    }
}

proof fn lemma_strip_end_part(s: Seq<char>, set: Seq<char>)
    ensures
        forall|c: char| text::strip_end(s, set).contains(c) ==> s.contains(c),
    decreases s.len(),
{
    if s.len() > 0 && set.contains(s.last()) {
        let t = s.drop_last();
        lemma_strip_end_part(t, set);
        assert forall|c: char| t.contains(c) implies s.contains(c) by {
            let i = choose|i: int| 0 <= i < t.len() && t[i] == c;
            assert(s[i] == c);
        }
    }
}

proof fn lemma_strip_both_part(s: Seq<char>, set: Seq<char>)
    ensures
        forall|c: char| text::strip_both(s, set).contains(c) ==> s.contains(c),
{
    lemma_strip_start_part(s, set);
    lemma_strip_end_part(text::strip_start(s, set), set);
}

/// The pieces of a split text hold nothing that the text does not, and none of
/// the characters it was cut at.
proof fn lemma_split_part(s: Seq<char>, at: split::Cut)
    ensures
        forall|i: int, c: char|
            0 <= i < split::split(s, at).len() && #[trigger] split::split(s, at)[i].contains(c) ==> s.contains(c)
                && !split::cuts(at, c),
    decreases s.len(),
{
    split::lemma_first_cut(s, at);
    let k = split::first_cut(s, at);
    let v = split::split(s, at);
    if k >= s.len() {
        assert forall|i: int, c: char| 0 <= i < v.len() && #[trigger] v[i].contains(c) implies s.contains(c)
            && !split::cuts(at, c) by {
            assert(v[i] == s);
        }
    } else {
        let rest = s.skip(k + 1);
        lemma_split_part(rest, at);
        assert forall|i: int, c: char| 0 <= i < v.len() && #[trigger] v[i].contains(c) implies s.contains(c)
            && !split::cuts(at, c) by {
            if i == 0 {
                let j = choose|j: int| 0 <= j < v[0].len() && v[0][j] == c;
                assert(v[0][j] == s[j]);
            } else {
                assert(v[i] == split::split(rest, at)[i - 1]);
                assert(rest.contains(c));
                let j = choose|j: int| 0 <= j < rest.len() && rest[j] == c;
                assert(s[j + k + 1] == c);
            }
        }
    }
}

/// A tidy text followed by a line break.
proof fn lemma_tidy_break(d: Seq<char>)
    requires
        is_tidy(d),
    ensures
        is_tidy(d.push('\n')),
{
    let e = d.push('\n');
    assert(e.last() == '\n');
    if d.len() > 0 {
        assert(e[0] == d[0]);
    }
    assert forall|i: int| 0 <= i < e.len() - 1 implies (#[trigger] e[i] == '\n' ==> solid_or_break(e[i + 1])) && (e[i
        + 1] == '\n' ==> solid_or_break(e[i])) by {
        if i < d.len() - 1 {
            assert(d[i] == e[i] && d[i + 1] == e[i + 1]);
        } else {
            assert(e[i] == d.last());
        }
    }
}

/// A tidy text followed by a value.
proof fn lemma_tidy_value(d: Seq<char>, t: Seq<char>)
    requires
        is_tidy(d),
        is_value(t),
    ensures
        is_tidy(d + t),
{
    let e = d + t;
    if t.len() == 0 {
        assert(e =~= d);
    } else {
        assert(e.last() == t.last());
        assert(e[0] == if d.len() > 0 {
            d[0]
        } else {
            t[0]
        });
        assert forall|i: int| 0 <= i < e.len() - 1 implies (#[trigger] e[i] == '\n' ==> solid_or_break(e[i + 1]))
            && (e[i + 1] == '\n' ==> solid_or_break(e[i])) by {
            if i < d.len() - 1 {
                assert(d[i] == e[i] && d[i + 1] == e[i + 1]);
            } else if i == d.len() - 1 {
                assert(e[i] == d.last());
                assert(e[i + 1] == t[0]);
            } else {
                assert(e[i] == t[i - d.len()]);
                assert(t.contains(t[i - d.len()]));
                assert(e[i + 1] == t[i + 1 - d.len()]);
                assert(t.contains(t[i + 1 - d.len()]));
            }
        }
    }
}

/// A field line keeps what is noted clean.
proof fn lemma_with_field(n: Noted, key: Seq<char>, value: Seq<char>)
    requires
        is_clean(n),
        is_value(value),
    ensures
        is_clean(document::with_field(n, key, value)),
{
    if key == "results"@ {
        if value.len() > 0 {
            let inner = text::strip_both(value, "{}"@);
            let pairs = split::split(inner, split::Cut::Any(","@));
            lemma_strip_both_part(value, "{}"@);
            lemma_split_part(inner, split::Cut::Any(","@));
            assert forall|i: int| 0 <= i < pairs.len() implies !(#[trigger] pairs[i]).contains('\n') by {
                if pairs[i].contains('\n') {
                    assert(inner.contains('\n'));
                }
            }
            lemma_with_pairs(n.results, pairs);
        }
    } else if key == "digest"@ {
        let v = text::strip_start(value, "|"@);
        lemma_strip_start_part(value, "|"@);
        text::lemma_trim(v);
        lemma_tidy_value(n.digest, text::trim(v));
    } else {
        let p = table::put(n.fields, key, value);
        assert forall|i: int| 0 <= i < p.len() implies is_value((#[trigger] p[i]).1) by {
            lemma_put_entry(n.fields, key, value, i);
            if p[i] != (key, value) {
                let j = choose|j: int| 0 <= j < n.fields.len() && n.fields[j] == p[i];
                assert(is_value(n.fields[j].1));
            }
        }
    }
}

/// A line keeps what is noted clean.
proof fn lemma_with_line(n: Noted, line: Seq<char>)
    requires
        is_clean(n),
        !line.contains('\n'),
    ensures
        is_clean(document::with_line(n, line)),
{
    let t = text::trim(line);
    text::lemma_trim(line);
    assert(is_value(t));
    lemma_halves_of(t);
    lemma_tidy_break(n.digest);
    lemma_tidy_value(n.digest.push('\n'), t);
    lemma_tidy_value(n.digest, t);
    lemma_with_pair(n.results, t);
    if n.digest.len() == 0 {
        assert(n.digest + t =~= t);
    }
    let top = Noted { place: Place::Top, ..n };
    if let Some((k, v)) = split::halves(t, ':') {
        lemma_with_field(top, text::lower_case(text::trim(k)), text::trim(v));
    }
}

proof fn lemma_noted_is_clean(lines: Seq<Seq<char>>)
    requires
        forall|i: int| 0 <= i < lines.len() ==> !(#[trigger] lines[i]).contains('\n'),
    ensures
        is_clean(document::noted(lines)),
    decreases lines.len(),
{
    if lines.len() > 0 {
        let head = lines.drop_last();
        assert forall|i: int| 0 <= i < head.len() implies !(#[trigger] head[i]).contains('\n') by {
            assert(head[i] == lines[i]);
        }
        lemma_noted_is_clean(head);
        assert(!lines[lines.len() - 1].contains('\n'));
        lemma_with_line(document::noted(head), lines.last());
    }
}

/// A tidy text stays tidy when it is trimmed.
proof fn lemma_tidy_trim(d: Seq<char>)
    requires
        is_tidy(d),
    ensures
        is_tidy(text::trim(d)),
{
    text::lemma_trim(d);
    text::lemma_trim_start(d);
    let a = text::trim_start(d);
    text::lemma_trim_end(a);
    let t = text::trim(d);
    let k = d.len() - a.len();
    assert forall|i: int| 0 <= i < t.len() - 1 implies (#[trigger] t[i] == '\n' ==> solid_or_break(t[i + 1])) && (t[i
        + 1] == '\n' ==> solid_or_break(t[i])) by {
        assert(t[i] == d[i + k]);
        assert(t[i + 1] == d[i + k + 1]);
    }
}

/// What a field holds.
proof fn lemma_lookup_value(fields: Seq<(Seq<char>, Seq<char>)>, key: Seq<char>)
    requires
        forall|i: int| 0 <= i < fields.len() ==> is_value((#[trigger] fields[i]).1),
    ensures
        table::lookup(fields, key) matches Some(v) ==> is_value(v),
        is_value(document::field_or_empty(fields, key)),
    decreases fields.len(),
{
    if fields.len() > 0 {
        assert(is_value(fields[0].1));
        let rest = fields.drop_first();
        assert forall|i: int| 0 <= i < rest.len() implies is_value((#[trigger] rest[i]).1) by {
            assert(rest[i] == fields[i + 1]);
        }
        lemma_lookup_value(rest, key);
    }
}

proof fn lemma_solid_entry(v: Seq<Seq<char>>, i: int)
    requires
        0 <= i < split::solid(v).len(),
    ensures
        split::solid(v)[i].len() > 0,
        v.contains(split::solid(v)[i]),
    decreases v.len(),
{
    let rest = v.drop_first();
    if v[0].len() > 0 {
        if i > 0 {
            lemma_solid_entry(rest, i - 1);
            assert(split::solid(v)[i] == split::solid(rest)[i - 1]);
            let j = choose|j: int| 0 <= j < rest.len() && rest[j] == split::solid(v)[i];
            assert(v[j + 1] == split::solid(v)[i]);
        } else {
            assert(v[0] == split::solid(v)[0]);
        }
    } else {
        lemma_solid_entry(rest, i);
        let j = choose|j: int| 0 <= j < rest.len() && rest[j] == split::solid(v)[i];
        assert(v[j + 1] == split::solid(v)[i]);
    }
}

/// The items of a list are not empty, and hold neither comma nor line break.
proof fn lemma_items(v: Seq<char>, i: int)
    requires
        !v.contains('\n'),
        0 <= i < document::inline_list(v).len(),
    ensures
        document::inline_list(v)[i].len() > 0,
        !document::inline_list(v)[i].contains(','),
        !document::inline_list(v)[i].contains('\n'),
{
    reveal_strlit(",");
    let t = text::trim(v);
    text::lemma_trim(v);
    let a = text::without_prefix(t, "["@);
    let inner = text::without_suffix(a, "]"@);
    assert forall|c: char| inner.contains(c) implies t.contains(c) by {
        let j = choose|j: int| 0 <= j < inner.len() && inner[j] == c;
        assert(inner[j] == a[j]);
        assert(a[j] == t[j + t.len() - a.len()]);
    }
    let at = split::Cut::Any(","@);
    let parts = split::split(inner, at);
    lemma_split_part(inner, at);
    let items = parts.map_values(|p: Seq<char>| document::list_item(p));
    lemma_solid_entry(items, i);
    let item = document::inline_list(v)[i];
    let j = choose|j: int| 0 <= j < items.len() && items[j] == item;
    let p = parts[j];
    assert(item == document::list_item(p));
    text::lemma_trim(p);
    lemma_strip_both_part(text::trim(p), "\""@);
    lemma_strip_both_part(text::strip_both(text::trim(p), "\""@), "'"@);
    if item.contains(',') {
        assert(p.contains(','));
        assert(","@[0] == ',');
        assert(split::cuts(at, ','));
    }
    if item.contains('\n') {
        assert(p.contains('\n'));
        assert(inner.contains('\n'));
    }
}

/// Whatever is read can be read back, but for two things: a carriage return left
/// before a line break of the body, and an item of `inputs` that still has
/// something to clean off.
pub proof fn law_parsed_is_canonical<T: Tokenizer + ?Sized>(s: Seq<char>, tok: &T)
    requires
        document::parsed(s, tok) is Ok,
        !split::has_crlf(document::parsed(s, tok)->Ok_0.body),
        forall|i: int|
            0 <= i < document::parsed(s, tok)->Ok_0.inputs.len() ==> document::list_item(
                #[trigger] document::parsed(s, tok)->Ok_0.inputs[i],
            ) == document::parsed(s, tok)->Ok_0.inputs[i],
    ensures
        is_canonical(document::parsed(s, tok)->Ok_0, tok),
{
    let c = document::parsed(s, tok)->Ok_0;
    let rows = document::opened(s)->0;
    let k = document::closing_line(rows);
    document::lemma_closing_line(rows);
    let head = rows.take(k);
    let n = document::noted(head);
    let start = text::trim_start(text::strip_start(s, "\u{feff}"@));
    let rest = text::after_prefix(start, "---"@)->0;
    split::lemma_lines_hold_no_terminator(text::without_prefix(rest, "\n"@));
    assert forall|i: int| 0 <= i < head.len() implies !(#[trigger] head[i]).contains('\n') by {
        assert(head[i] == rows[i]);
    }
    lemma_noted_is_clean(head);
    lemma_lookup_value(n.fields, "run"@);
    lemma_lookup_value(n.fields, "node"@);
    lemma_lookup_value(n.fields, "model"@);
    lemma_lookup_value(n.fields, "created"@);
    lemma_lookup_value(n.fields, "inputs"@);
    lemma_tidy_trim(n.digest);
    text::lemma_trim(n.digest);
    assert forall|i: int| 0 <= i < c.inputs.len() implies is_item(#[trigger] c.inputs[i]) by {
        let v = table::lookup(n.fields, "inputs"@)->0;
        lemma_items(v, i);
    }
    let below = split::unlines(rows.skip(k + 1));
    let b = text::strip_start(below, "\n"@);
    reveal_strlit("\n");
    lemma_strip_start_part(below, "\n"@);
    text::lemma_trim_end(b);
    assert("\n"@[0] == '\n');
    assert(c.body.len() > 0) by {
        if c.body.len() == 0 {
            text::lemma_trim(c.body);
        }
    }
    assert(c.body[0] == b[0]);
}

/// Reading, writing and reading again gives what the first reading gave, under
/// the two provisos of [`law_parsed_is_canonical`].
pub proof fn law_round_trip<T: Tokenizer + ?Sized>(s: Seq<char>, tok: &T)
    requires
        document::parsed(s, tok) is Ok,
        !split::has_crlf(document::parsed(s, tok)->Ok_0.body),
        forall|i: int|
            0 <= i < document::parsed(s, tok)->Ok_0.inputs.len() ==> document::list_item(
                #[trigger] document::parsed(s, tok)->Ok_0.inputs[i],
            ) == document::parsed(s, tok)->Ok_0.inputs[i],
    ensures
        document::parsed(document::rendered(document::parsed(s, tok)->Ok_0), tok) == document::parsed(s, tok),
{
    law_parsed_is_canonical(s, tok);
    law_rendered_is_parsed(document::parsed(s, tok)->Ok_0, tok);
}

} // verus!
