//! JSON kept as text.
//!
//! What a model sends as the arguments of a call has no fixed shape, so it is
//! held as the text of a value and looked into where a rule needs it.

use vstd::prelude::*;

verus! {

/// What `serde_json::Value::get` finds under a key of the value that a text
/// spells, spelled again. Nothing where the text spells no value, or one without
/// that key.
pub uninterp spec fn json_member(json: Seq<char>, key: Seq<char>) -> Option<Seq<char>>;

/// What `serde_json::Value::as_str` finds in the value that a text spells: the
/// string, where the value is one.
pub uninterp spec fn json_string(json: Seq<char>) -> Option<Seq<char>>;

/// The value that `serde_json::from_str` reads from a text, spelled again.
/// Nothing where the text spells no value.
pub uninterp spec fn json_value(json: Seq<char>) -> Option<Seq<char>>;

/// A digit of a number that is written to the base sixteen.
pub open spec fn hex_digit(n: int) -> char {
    if n < 10 {
        ('0' as int + n) as char
    } else {
        ('a' as int + n - 10) as char
    }
}

/// How a character is spelled within a JSON string.
pub open spec fn spelled(c: char) -> Seq<char> {
    if c == '"' {
        "\\\""@
    } else if c == '\\' {
        "\\\\"@
    } else if c == '\n' {
        "\\n"@
    } else if c == '\r' {
        "\\r"@
    } else if c == '\t' {
        "\\t"@
    } else if c == '\u{8}' {
        "\\b"@
    } else if c == '\u{c}' {
        "\\f"@
    } else if (c as int) < 32 {
        "\\u00"@ + seq![hex_digit(c as int / 16), hex_digit(c as int % 16)]
    } else {
        seq![c]
    }
}

/// A text with each of its characters spelled so.
pub open spec fn spelled_out(s: Seq<char>) -> Seq<char>
    decreases s.len(),
{
    if s.len() == 0 {
        seq![]
    } else {
        spelled_out(s.drop_last()) + spelled(s.last())
    }
}

/// A text as a JSON string.
pub open spec fn json_quoted(s: Seq<char>) -> Seq<char> {
    "\""@ + spelled_out(s) + "\""@
}

/// What an optional string says.
pub open spec fn said(s: Option<String>) -> Option<Seq<char>> {
    match s {
        Some(t) => Some(t@),
        None => None,
    }
}

/// `serde_json::Value::get` on the value that `serde_json::from_str` reads; the
/// result depends on the two texts alone.
#[verifier::external_body]
pub(crate) fn member(json: &str, key: &str) -> (r: Option<String>)
    ensures
        said(r) == json_member(json@, key@),
{
    let value: serde_json::Value = serde_json::from_str(json).ok()?;
    value.get(key).map(|m| m.to_string())
}

/// `serde_json::Value::as_str` on the value that `serde_json::from_str` reads;
/// the result depends on the text alone.
#[verifier::external_body]
pub(crate) fn string_content(json: &str) -> (r: Option<String>)
    ensures
        said(r) == json_string(json@),
{
    let value: serde_json::Value = serde_json::from_str(json).ok()?;
    value.as_str().map(|s| s.to_string())
}

/// `serde_json::from_str`; the result depends on the text alone.
#[verifier::external_body]
pub(crate) fn value_of(json: &str) -> (r: Option<String>)
    ensures
        said(r) == json_value(json@),
{
    let value: Option<serde_json::Value> = serde_json::from_str(json).ok();
    value.map(|v| v.to_string())
}

/// `serde_json::Value::to_string` on a string: it stands in quotation marks, with
/// quotation marks, backslashes and control characters escaped and every other
/// character as it is.
#[verifier::external_body]
pub(crate) fn quoted(s: &str) -> (r: String)
    ensures
        r@ == json_quoted(s@),
{
    serde_json::Value::String(s.to_string()).to_string()
}

/// The string under a key, where there is one.
pub open spec fn string_member(json: Seq<char>, key: Seq<char>) -> Option<Seq<char>> {
    match json_member(json, key) {
        Some(m) => json_string(m),
        None => None,
    }
}

/// The string under a key, where there is one.
pub fn string_at(json: &str, key: &str) -> (r: Option<String>)
    ensures
        said(r) == string_member(json@, key@),
{
    match member(json, key) {
        Some(m) => string_content(m.as_str()),
        None => None,
    }
}

/// A text is quoted piece by piece, and what needs no care stands for itself.
pub proof fn law_a_text_is_quoted_piece_by_piece(a: Seq<char>, b: Seq<char>)
    ensures
        spelled_out(a + b) == spelled_out(a) + spelled_out(b),
        (forall|i: int| 0 <= i < a.len() ==> #[trigger] a[i] != '"' && a[i] != '\\' && (a[i] as int) >= 32) ==> spelled_out(
            a,
        ) == a,
    decreases a.len() + b.len(),
{
    if b.len() > 0 {
        law_a_text_is_quoted_piece_by_piece(a, b.drop_last());
        assert((a + b).drop_last() =~= a + b.drop_last());
        assert((a + b).last() == b.last());
        assert(spelled_out(a + b) =~= spelled_out(a) + spelled_out(b));
    } else {
        assert(a + b =~= a);
        assert(spelled_out(a) + spelled_out(b) =~= spelled_out(a));
        if a.len() > 0 {
            law_a_text_is_quoted_piece_by_piece(a.drop_last(), b);
            if forall|i: int| 0 <= i < a.len() ==> #[trigger] a[i] != '"' && a[i] != '\\' && (a[i] as int) >= 32 {
                assert forall|i: int| 0 <= i < a.drop_last().len() implies #[trigger] a.drop_last()[i] != '"'
                    && a.drop_last()[i] != '\\' && (a.drop_last()[i] as int) >= 32 by {
                    assert(a.drop_last()[i] == a[i]);
                }
                assert(spelled(a.last()) =~= seq![a.last()]);
                assert(spelled_out(a) =~= a);
            }
        }
    }
}

proof fn lemma_hex_digit(n: int)
    requires
        0 <= n < 16,
    ensures
        '0' as int <= hex_digit(n) as int <= 'f' as int,
{
}

proof fn lemma_hex_digits(c: char)
    requires
        (c as int) < 32,
    ensures
        '0' as int <= hex_digit(c as int / 16) as int <= 'f' as int,
        '0' as int <= hex_digit(c as int % 16) as int <= 'f' as int,
{
    lemma_hex_digit(c as int / 16);
    lemma_hex_digit(c as int % 16);
}

/// A quoted text holds no break and no other mark that has no shape.
pub proof fn law_a_quoted_text_holds_no_break(s: Seq<char>, i: int)
    requires
        0 <= i < spelled_out(s).len(),
    ensures
        (spelled_out(s)[i] as int) >= 32,
    decreases s.len(),
{
    reveal_strlit("\\\"");
    reveal_strlit("\\\\");
    reveal_strlit("\\n");
    reveal_strlit("\\r");
    reveal_strlit("\\t");
    reveal_strlit("\\b");
    reveal_strlit("\\f");
    reveal_strlit("\\u00");
    let before = spelled_out(s.drop_last());
    if i < before.len() {
        law_a_quoted_text_holds_no_break(s.drop_last(), i);
    } else {
        let c = s.last();
        let t = spelled(c);
        assert(spelled_out(s)[i] == t[i - before.len()]);
        if (c as int) < 32 && t.len() == 6 {
            lemma_hex_digits(c);
        }
    }
}

/// A quote within a quoted text stands behind a backslash.
pub proof fn law_a_quote_within_is_marked(s: Seq<char>, i: int)
    requires
        0 <= i < spelled_out(s).len(),
        spelled_out(s)[i] == '"',
    ensures
        i > 0,
        spelled_out(s)[i - 1] == '\\',
    decreases s.len(),
{
    reveal_strlit("\\\"");
    reveal_strlit("\\\\");
    reveal_strlit("\\n");
    reveal_strlit("\\r");
    reveal_strlit("\\t");
    reveal_strlit("\\b");
    reveal_strlit("\\f");
    reveal_strlit("\\u00");
    let before = spelled_out(s.drop_last());
    if i < before.len() {
        law_a_quote_within_is_marked(s.drop_last(), i);
    } else {
        let c = s.last();
        let t = spelled(c);
        assert(spelled_out(s)[i] == t[i - before.len()]);
        if (c as int) < 32 && t.len() == 6 {
            lemma_hex_digits(c);
        }
        assert(i - before.len() == 1);
        assert(spelled_out(s)[i - 1] == t[0]);
    }
}

} // verus!
