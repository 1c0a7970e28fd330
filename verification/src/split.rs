//! Taking text apart into lines, fields and words, and putting it together.

use vstd::prelude::*;
use vstd::slice::slice_subrange;
use crate::text;
use crate::text::{chars_of, find, find_char, find_last, in_set, push_chars, white};

verus! {

// -------------------------------------------------------------------- lines

/// A line without the carriage return that belongs to its terminator.
pub open spec fn line_body(s: Seq<char>) -> Seq<char> {
    if s.len() > 0 && s.last() == '\r' {
        s.drop_last()
    } else {
        s
    }
}

/// The lines of a text. A line ends with `\n` or `\r\n`, which are not part of
/// it, and the last line needs no terminator.
pub open spec fn lines(s: Seq<char>) -> Seq<Seq<char>>
    decreases s.len(),
{
    let k = text::first_of(s, '\n');
    if s.len() == 0 {
        seq![]
    } else if k < 0 || k >= s.len() {
        seq![s]
    } else {
        seq![line_body(s.take(k))] + lines(s.skip(k + 1))
    }
}

pub fn split_lines<'a>(s: &'a [char]) -> (v: Vec<&'a [char]>)
    ensures
        text::pieces(v@) == lines(s@),
{
    let mut v: Vec<&'a [char]> = Vec::new();
    let mut rest: &'a [char] = s;
    assert(text::pieces(v@) =~= seq![]);
    while rest.len() > 0
        invariant
            text::pieces(v@) + lines(rest@) == lines(s@),
        decreases rest.len(),
    {
        let k = find_char(rest, '\n');
        let ghost before = v@;
        let ghost whole = rest@;
        if k == rest.len() {
            v.push(rest);
            assert(text::pieces(v@) =~= text::pieces(before).push(whole));
            assert(lines(whole) =~= seq![whole]);
            rest = slice_subrange(rest, k, k);
            assert(rest@.len() == 0);
            assert(lines(rest@) =~= seq![]);
            assert(text::pieces(v@) + lines(rest@) =~= text::pieces(before) + lines(whole));
        } else {
            let mut n: usize = k;
            if k > 0 && rest[k - 1] == '\r' {
                n = k - 1;
            }
            let line = slice_subrange(rest, 0, n);
            assert(whole.take(k as int).len() > 0 ==> whole.take(k as int).last() == whole[k - 1]);
            assert(line@ =~= line_body(whole.take(k as int)));
            v.push(line);
            assert(text::pieces(v@) =~= text::pieces(before).push(line@));
            rest = slice_subrange(rest, k + 1, rest.len());
            assert(rest@ =~= whole.skip(k + 1));
            assert(text::pieces(v@) + lines(rest@) =~= text::pieces(before) + lines(whole));
        }
    }
    assert(lines(rest@) =~= seq![]);
    assert(text::pieces(v@) + lines(rest@) =~= text::pieces(v@));
    v
}

/// Lines written one after the other, each with its terminator.
pub open spec fn unlines(v: Seq<Seq<char>>) -> Seq<char>
    decreases v.len(),
{
    if v.len() == 0 {
        seq![]
    } else {
        unlines(v.drop_last()) + v.last() + seq!['\n']
    }
}

/// Whether a line reads back as itself once it has been written.
pub open spec fn is_line(s: Seq<char>) -> bool {
    !s.contains('\n') && (s.len() > 0 ==> s.last() != '\r')
}

/// The first line of what begins with a line and its terminator.
pub proof fn lemma_lines_cons(a: Seq<char>, rest: Seq<char>)
    requires
        !a.contains('\n'),
    ensures
        lines(a + seq!['\n'] + rest) == seq![line_body(a)] + lines(rest),
{
    let s = a + seq!['\n'] + rest;
    assert(s[a.len() as int] == '\n');
    assert forall|j: int| 0 <= j < a.len() implies s[j] != '\n' by {
        assert(s[j] == a[j]);
        assert(a.contains(a[j]));
    }
    crate::text::lemma_first_of_is(s, '\n', a.len() as int);
    assert(s.take(a.len() as int) =~= a);
    assert(s.skip(a.len() as int + 1) =~= rest);
}

/// Written lines read back as they were, whatever follows them.
pub proof fn lemma_lines_of_unlines(v: Seq<Seq<char>>, rest: Seq<char>)
    requires
        forall|i: int| 0 <= i < v.len() ==> is_line(#[trigger] v[i]),
    ensures
        lines(unlines(v) + rest) == v + lines(rest),
    decreases v.len(),
{
    if v.len() == 0 {
        assert(unlines(v) + rest =~= rest);
        assert(v + lines(rest) =~= lines(rest));
    } else {
        let head = v.drop_last();
        let tail = v.last() + seq!['\n'] + rest;
        assert(unlines(v) + rest =~= unlines(head) + tail);
        assert forall|i: int| 0 <= i < head.len() implies is_line(#[trigger] head[i]) by {
            assert(head[i] == v[i]);
        }
        lemma_lines_of_unlines(head, tail);
        lemma_lines_cons(v.last(), rest);
        assert(line_body(v.last()) == v.last());
        assert(head + (seq![v.last()] + lines(rest)) =~= v + lines(rest));
    }
}

/// No line of a text holds a terminator.
pub proof fn lemma_lines_hold_no_terminator(s: Seq<char>)
    ensures
        forall|i: int| 0 <= i < lines(s).len() ==> !(#[trigger] lines(s)[i]).contains('\n'),
    decreases s.len(),
{
    text::lemma_first_of(s, '\n');
    let k = text::first_of(s, '\n');
    if s.len() == 0 {
    } else if k >= s.len() {
    } else {
        lemma_lines_hold_no_terminator(s.skip(k + 1));
        let rest = lines(s.skip(k + 1));
        assert forall|i: int| 0 <= i < lines(s).len() implies !(#[trigger] lines(s)[i]).contains('\n') by {
            if i == 0 {
                assert forall|j: int| 0 <= j < line_body(s.take(k)).len() implies line_body(s.take(k))[j]
                    != '\n' by {
                    assert(line_body(s.take(k))[j] == s[j]);
                }
            } else {
                assert(lines(s)[i] == rest[i - 1]);
            }
        }
    }
}

/// Whether a carriage return stands before a line break.
pub open spec fn has_crlf(s: Seq<char>) -> bool {
    exists|i: int| 0 <= i < s.len() - 1 && #[trigger] s[i] == '\r' && s[i + 1] == '\n'
}

/// A text that ends its last line, in which no carriage return stands before a
/// line break, is its lines written out.
pub proof fn lemma_unlines_of_lines(s: Seq<char>)
    requires
        !has_crlf(s),
        s.len() > 0 ==> s.last() == '\n',
    ensures
        unlines(lines(s)) == s,
    decreases s.len(),
{
    if s.len() == 0 {
        assert(unlines(lines(s)) =~= s);
    } else {
        text::lemma_first_of(s, '\n');
        let k = text::first_of(s, '\n');
        assert(k < s.len());
        let head = s.take(k);
        let rest = s.skip(k + 1);
        if head.len() > 0 && head.last() == '\r' {
            assert(s[k - 1] == '\r' && s[k - 1 + 1] == '\n');
        }
        assert(line_body(head) == head);
        if has_crlf(rest) {
            let i = choose|i: int| 0 <= i < rest.len() - 1 && #[trigger] rest[i] == '\r' && rest[i + 1] == '\n';
            assert(s[i + k + 1] == '\r' && s[i + k + 1 + 1] == '\n');
        }
        if rest.len() > 0 {
            assert(rest.last() == s.last());
        }
        lemma_unlines_of_lines(rest);
        lemma_unlines_add(seq![head], lines(rest));
        assert(seq![head].drop_last() =~= seq![]);
        assert(unlines(seq![head].drop_last()) =~= seq![]);
        assert(unlines(seq![head]) =~= head + seq!['\n']);
        assert(head + seq!['\n'] + rest =~= s);
    }
}

pub proof fn lemma_unlines_push(v: Seq<Seq<char>>, line: Seq<char>)
    ensures
        unlines(v.push(line)) == unlines(v) + line + seq!['\n'],
{
    assert(v.push(line).drop_last() =~= v);
}

/// Written lines, taken in two parts.
pub proof fn lemma_unlines_add(a: Seq<Seq<char>>, b: Seq<Seq<char>>)
    ensures
        unlines(a + b) == unlines(a) + unlines(b),
    decreases b.len(),
{
    if b.len() == 0 {
        assert(a + b =~= a);
        assert(unlines(a) + unlines(b) =~= unlines(a));
    } else {
        lemma_unlines_add(a, b.drop_last());
        assert((a + b).drop_last() =~= a + b.drop_last());
        assert((a + b).last() == b.last());
        assert(unlines(a + b) =~= unlines(a) + unlines(b));
    }
}

/// Writes pieces one after the other, each with its terminator.
pub fn write_lines(v: &[&[char]]) -> (s: String)
    ensures
        s@ == unlines(text::pieces(v@)),
{
    let mut s = String::new();
    let mut i: usize = 0;
    assert(text::pieces(v@).take(0) =~= seq![]);
    while i < v.len()
        invariant
            i <= v.len(),
            s@ == unlines(text::pieces(v@).take(i as int)),
        decreases v.len() - i,
    {
        push_chars(&mut s, v[i]);
        s.push('\n');
        proof {
            let p = text::pieces(v@);
            assert(p.take(i + 1) =~= p.take(i as int).push(p[i as int]));
            lemma_unlines_push(p.take(i as int), p[i as int]);
        }
        i = i + 1;
    }
    assert(text::pieces(v@).take(i as int) =~= text::pieces(v@));
    s
}

/// Writes strings one after the other, each with its terminator.
pub fn write_strings(v: &[String]) -> (s: String)
    ensures
        s@ == unlines(text::texts(v@)),
{
    let mut s = String::new();
    let mut i: usize = 0;
    assert(text::texts(v@).take(0) =~= seq![]);
    while i < v.len()
        invariant
            i <= v.len(),
            s@ == unlines(text::texts(v@).take(i as int)),
        decreases v.len() - i,
    {
        s.append(v[i].as_str());
        s.push('\n');
        proof {
            let p = text::texts(v@);
            assert(p.take(i + 1) =~= p.take(i as int).push(p[i as int]));
            lemma_unlines_push(p.take(i as int), p[i as int]);
        }
        i = i + 1;
    }
    assert(text::texts(v@).take(i as int) =~= text::texts(v@));
    s
}

// ------------------------------------------------------------------- joining

/// The pieces with `sep` between each two of them.
pub open spec fn join(v: Seq<Seq<char>>, sep: Seq<char>) -> Seq<char>
    decreases v.len(),
{
    if v.len() == 0 {
        seq![]
    } else if v.len() == 1 {
        v[0]
    } else {
        join(v.drop_last(), sep) + sep + v.last()
    }
}

/// Joining, read from the front.
pub proof fn lemma_join_cons(a: Seq<char>, rest: Seq<Seq<char>>, sep: Seq<char>)
    requires
        rest.len() > 0,
    ensures
        join(seq![a] + rest, sep) == a + sep + join(rest, sep),
    decreases rest.len(),
{
    let v = seq![a] + rest;
    if rest.len() == 1 {
        assert(v.drop_last() =~= seq![a]);
        assert(join(v.drop_last(), sep) == a);
        assert(v.last() == rest[0]);
        assert(join(v, sep) =~= a + sep + join(rest, sep));
    } else {
        lemma_join_cons(a, rest.drop_last(), sep);
        assert(v.drop_last() =~= seq![a] + rest.drop_last());
        assert(v.last() == rest.last());
        assert(join(v, sep) =~= a + sep + join(rest, sep));
    }
}

pub fn join_pieces(v: &[&[char]], sep: &str) -> (s: String)
    ensures
        s@ == join(text::pieces(v@), sep@),
{
    let mut s = String::new();
    let mut i: usize = 0;
    assert(text::pieces(v@).take(0) =~= seq![]);
    while i < v.len()
        invariant
            i <= v.len(),
            s@ == join(text::pieces(v@).take(i as int), sep@),
        decreases v.len() - i,
    {
        proof {
            let p = text::pieces(v@);
            assert(p.take(i + 1).drop_last() =~= p.take(i as int));
            assert(p.take(i + 1).last() == v@[i as int]@);
        }
        if i > 0 {
            s.append(sep);
        } else {
            assert(s@ =~= seq![]);
            assert(seq![] + v@[0]@ =~= v@[0]@);
        }
        push_chars(&mut s, v[i]);
        i = i + 1;
    }
    assert(text::pieces(v@).take(i as int) =~= text::pieces(v@));
    s
}

pub fn join_strings(v: &[String], sep: &str) -> (s: String)
    ensures
        s@ == join(text::texts(v@), sep@),
{
    let mut s = String::new();
    let mut i: usize = 0;
    assert(text::texts(v@).take(0) =~= seq![]);
    while i < v.len()
        invariant
            i <= v.len(),
            s@ == join(text::texts(v@).take(i as int), sep@),
        decreases v.len() - i,
    {
        proof {
            let p = text::texts(v@);
            assert(p.take(i + 1).drop_last() =~= p.take(i as int));
            assert(p.take(i + 1).last() == v@[i as int]@);
        }
        if i > 0 {
            s.append(sep);
        } else {
            assert(s@ =~= seq![]);
            assert(seq![] + v@[0]@ =~= v@[0]@);
        }
        s.append(v[i].as_str());
        i = i + 1;
    }
    assert(text::texts(v@).take(i as int) =~= text::texts(v@));
    s
}

// ----------------------------------------------------------------- splitting

/// Where a text is cut.
pub enum Cut {
    /// At every character of whitespace.
    White,
    /// At every character that is no ASCII digit.
    NonDigit,
    /// At every character of a set.
    Any(Seq<char>),
}

/// Whether the cut is made at `c`.
pub open spec fn cuts(at: Cut, c: char) -> bool {
    match at {
        Cut::White => text::is_white(c),
        Cut::NonDigit => !('0' <= c && c <= '9'),
        Cut::Any(set) => set.contains(c),
    }
}

/// The place of the first cut, or the length of `s` where there is none.
pub open spec fn first_cut(s: Seq<char>, at: Cut) -> int
    decreases s.len(),
{
    if s.len() == 0 || cuts(at, s[0]) {
        0
    } else {
        1 + first_cut(s.drop_first(), at)
    }
}

pub proof fn lemma_first_cut(s: Seq<char>, at: Cut)
    ensures
        0 <= first_cut(s, at) <= s.len(),
        first_cut(s, at) < s.len() ==> cuts(at, s[first_cut(s, at)]),
        forall|j: int| 0 <= j < first_cut(s, at) ==> !cuts(at, s[j]),
    decreases s.len(),
{
    if s.len() > 0 && !cuts(at, s[0]) {
        lemma_first_cut(s.drop_first(), at);
        assert forall|j: int| 0 <= j < first_cut(s, at) implies !cuts(at, s[j]) by {
            if j > 0 {
                assert(s.drop_first()[j - 1] == s[j]);
            }
        }
    }
}

pub proof fn lemma_first_cut_is(s: Seq<char>, at: Cut, k: int)
    requires
        0 <= k <= s.len(),
        k < s.len() ==> cuts(at, s[k]),
        forall|j: int| 0 <= j < k ==> !cuts(at, s[j]),
    ensures
        first_cut(s, at) == k,
{
    lemma_first_cut(s, at);
}

/// The pieces between the cuts: one more than there are cuts, some of them
/// possibly empty.
pub open spec fn split(s: Seq<char>, at: Cut) -> Seq<Seq<char>>
    decreases s.len(),
{
    let k = first_cut(s, at);
    if k < 0 || k >= s.len() {
        seq![s]
    } else {
        seq![s.take(k)] + split(s.skip(k + 1), at)
    }
}

/// The pieces that are not empty.
pub open spec fn solid(v: Seq<Seq<char>>) -> Seq<Seq<char>>
    decreases v.len(),
{
    if v.len() == 0 {
        seq![]
    } else if v[0].len() > 0 {
        seq![v[0]] + solid(v.drop_first())
    } else {
        solid(v.drop_first())
    }
}

/// The words of a text: what stands between whitespace.
pub open spec fn words(s: Seq<char>) -> Seq<Seq<char>> {
    solid(split(s, Cut::White))
}

/// Where a text is cut, for the code that cuts it.
pub enum Cutter {
    White,
    NonDigit,
    Any(Vec<char>),
}

impl Cutter {
    pub open spec fn at(self) -> Cut {
        match self {
            Cutter::White => Cut::White,
            Cutter::NonDigit => Cut::NonDigit,
            Cutter::Any(set) => Cut::Any(set@),
        }
    }

    pub fn cuts(&self, c: char) -> (r: bool)
        ensures
            r == cuts(self.at(), c),
    {
        match self {
            Cutter::White => white(c),
            Cutter::NonDigit => !('0' <= c && c <= '9'),
            Cutter::Any(set) => in_set(c, set.as_slice()),
        }
    }

    pub fn pieces_of<'a>(&self, s: &'a [char]) -> (v: Vec<&'a [char]>)
        ensures
            text::pieces(v@) == split(s@, self.at()),
    {
        let mut v: Vec<&'a [char]> = Vec::new();
        let mut rest: &'a [char] = s;
        assert(text::pieces(v@) =~= seq![]);
        assert(text::pieces(v@) + split(s@, self.at()) =~= split(s@, self.at()));
        loop
            invariant
                text::pieces(v@) + split(rest@, self.at()) == split(s@, self.at()),
            decreases rest.len(),
        {
            let mut k: usize = 0;
            while k < rest.len() && !self.cuts(rest[k])
                invariant
                    k <= rest.len(),
                    forall|j: int| 0 <= j < k ==> !cuts(self.at(), rest@[j]),
                decreases rest.len() - k,
            {
                k = k + 1;
            }
            let ghost before = v@;
            let ghost whole = rest@;
            proof {
                lemma_first_cut_is(whole, self.at(), k as int);
            }
            if k == rest.len() {
                v.push(rest);
                assert(text::pieces(v@) =~= text::pieces(before) + split(whole, self.at()));
                return v;
            }
            let piece = slice_subrange(rest, 0, k);
            v.push(piece);
            assert(piece@ =~= whole.take(k as int));
            assert(text::pieces(v@) =~= text::pieces(before).push(piece@));
            rest = slice_subrange(rest, k + 1, rest.len());
            assert(rest@ =~= whole.skip(k + 1));
            assert(text::pieces(v@) + split(rest@, self.at()) =~= text::pieces(before) + split(whole, self.at()));
        }
    }
}

/// The pieces between the characters of `set`.
pub fn split_any<'a>(s: &'a [char], set: &str) -> (v: Vec<&'a [char]>)
    ensures
        text::pieces(v@) == split(s@, Cut::Any(set@)),
{
    let c = Cutter::Any(chars_of(set));
    c.pieces_of(s)
}

/// The pieces that are not empty.
pub fn solid_pieces<'a>(v: &[&'a [char]]) -> (r: Vec<&'a [char]>)
    ensures
        text::pieces(r@) == solid(text::pieces(v@)),
{
    let mut r: Vec<&'a [char]> = Vec::new();
    let mut i: usize = 0;
    let ghost p = text::pieces(v@);
    assert(text::pieces(r@) + solid(p.skip(0)) =~= solid(p)) by {
        assert(p.skip(0) =~= p);
        assert(text::pieces(r@) =~= seq![]);
    }
    while i < v.len()
        invariant
            i <= v.len(),
            p == text::pieces(v@),
            text::pieces(r@) + solid(p.skip(i as int)) == solid(p),
        decreases v.len() - i,
    {
        let ghost before = r@;
        assert(p.skip(i as int).drop_first() =~= p.skip(i + 1));
        assert(p.skip(i as int)[0] == v@[i as int]@);
        if v[i].len() > 0 {
            r.push(v[i]);
            assert(text::pieces(r@) =~= text::pieces(before).push(v@[i as int]@));
            assert(text::pieces(r@) + solid(p.skip(i + 1)) =~= text::pieces(before) + solid(p.skip(i as int)));
        }
        i = i + 1;
    }
    assert(p.skip(i as int) =~= seq![]);
    assert(text::pieces(r@) + solid(p.skip(i as int)) =~= text::pieces(r@));
    r
}

pub fn split_words<'a>(s: &'a [char]) -> (v: Vec<&'a [char]>)
    ensures
        text::pieces(v@) == words(s@),
{
    let c = Cutter::White;
    let parts = c.pieces_of(s);
    solid_pieces(parts.as_slice())
}

/// What stands before and after the first `c`.
pub open spec fn halves(s: Seq<char>, c: char) -> Option<(Seq<char>, Seq<char>)> {
    let k = text::first_of(s, c);
    if k < s.len() {
        Some((s.take(k), s.skip(k + 1)))
    } else {
        None
    }
}

pub fn split_once<'a>(s: &'a [char], c: char) -> (r: Option<(&'a [char], &'a [char])>)
    ensures
        r is Some == halves(s@, c) is Some,
        r matches Some(p) ==> Some((p.0@, p.1@)) == halves(s@, c),
{
    let k = find_char(s, c);
    if k < s.len() {
        let a = slice_subrange(s, 0, k);
        let b = slice_subrange(s, k + 1, s.len());
        assert(a@ =~= s@.take(k as int));
        assert(b@ =~= s@.skip(k + 1));
        Some((a, b))
    } else {
        None
    }
}

/// What stands before and after the first `p`.
pub open spec fn halves_at(s: Seq<char>, p: Seq<char>) -> Option<(Seq<char>, Seq<char>)> {
    match text::first_place(s, p) {
        Some(k) => Some((s.take(k), s.skip(k + p.len()))),
        None => None,
    }
}

pub fn split_once_at<'a>(s: &'a [char], literal: &str) -> (r: Option<(&'a [char], &'a [char])>)
    ensures
        r is Some == halves_at(s@, literal@) is Some,
        r matches Some(p) ==> Some((p.0@, p.1@)) == halves_at(s@, literal@),
{
    let l = chars_of(literal);
    match find(s, l.as_slice()) {
        Some(k) => {
            let a = slice_subrange(s, 0, k);
            let b = slice_subrange(s, k + l.len(), s.len());
            assert(a@ =~= s@.take(k as int));
            assert(b@ =~= s@.skip(k + l@.len()));
            Some((a, b))
        },
        None => None,
    }
}

/// What stands before and after the last `p`.
pub open spec fn halves_at_last(s: Seq<char>, p: Seq<char>) -> Option<(Seq<char>, Seq<char>)> {
    match text::last_place(s, p) {
        Some(k) => Some((s.take(k), s.skip(k + p.len()))),
        None => None,
    }
}

pub fn split_at_last<'a>(s: &'a [char], literal: &str) -> (r: Option<(&'a [char], &'a [char])>)
    ensures
        r is Some == halves_at_last(s@, literal@) is Some,
        r matches Some(p) ==> Some((p.0@, p.1@)) == halves_at_last(s@, literal@),
{
    let l = chars_of(literal);
    match find_last(s, literal) {
        Some(k) => {
            let a = slice_subrange(s, 0, k);
            let b = slice_subrange(s, k + l.len(), s.len());
            assert(a@ =~= s@.take(k as int));
            assert(b@ =~= s@.skip(k + l@.len()));
            Some((a, b))
        },
        None => None,
    }
}

// ------------------------------------------------------------ counting pieces

/// How often `p` occurs in `s`, occurrences not overlapping, read from the left.
/// The empty text occurs before every character and at the end.
pub open spec fn occurrences(s: Seq<char>, p: Seq<char>) -> nat
    decreases s.len(),
{
    if p.len() == 0 {
        s.len() + 1
    } else {
        match text::first_place(s, p) {
            Some(k) => if 0 <= k && k + p.len() <= s.len() {
                1 + occurrences(s.skip(k + p.len()), p)
            } else {
                0
            },
            None => 0,
        }
    }
}

pub fn count_occurrences(s: &[char], p: &[char]) -> (n: u128)
    ensures
        n == occurrences(s@, p@),
{
    if p.len() == 0 {
        return s.len() as u128 + 1;
    }
    let mut rest: &[char] = s;
    let mut n: u128 = 0;
    loop
        invariant
            p@.len() > 0,
            s@.len() == s.len(),
            n + rest@.len() <= s@.len(),
            n + occurrences(rest@, p@) == occurrences(s@, p@),
        decreases rest.len(),
    {
        match find(rest, p) {
            Some(k) => {
                let ghost whole = rest@;
                rest = slice_subrange(rest, k + p.len(), rest.len());
                assert(rest@ =~= whole.skip(k + p@.len()));
                n = n + 1;
            },
            None => {
                return n;
            },
        }
    }
}

/// `s` with its first `p` replaced.
pub open spec fn replaced_once(s: Seq<char>, p: Seq<char>, with: Seq<char>) -> Seq<char> {
    match text::first_place(s, p) {
        Some(k) => s.take(k) + with + s.skip(k + p.len()),
        None => s,
    }
}

pub fn replace_once(s: &[char], p: &[char], with: &[char]) -> (r: String)
    ensures
        r@ == replaced_once(s@, p@, with@),
{
    let mut r = String::new();
    match find(s, p) {
        Some(k) => {
            push_chars(&mut r, slice_subrange(s, 0, k));
            push_chars(&mut r, with);
            push_chars(&mut r, slice_subrange(s, k + p.len(), s.len()));
            assert(r@ =~= s@.take(k as int) + with@ + s@.skip(k + p@.len()));
        },
        None => {
            push_chars(&mut r, s);
            assert(r@ =~= s@);
        },
    }
    r
}

// -------------------------------------------------------------------------- laws

/// A text that is cut somewhere has the pieces of what stands before the cut, and
/// then those of what stands behind it.
pub proof fn law_a_cut_parts_the_pieces(s: Seq<char>, c: char, t: Seq<char>, at: Cut)
    requires
        cuts(at, c),
    ensures
        split(s + seq![c] + t, at) == split(s, at) + split(t, at),
    decreases s.len(),
{
    let all = s + seq![c] + t;
    lemma_first_cut(s, at);
    let k = first_cut(s, at);
    if 0 <= k < s.len() {
        assert(all[k] == s[k]);
        assert forall|j: int| 0 <= j < k implies !cuts(at, #[trigger] all[j]) by {
            assert(all[j] == s[j]);
        }
        lemma_first_cut_is(all, at, k);
        assert(all.take(k) =~= s.take(k));
        assert(all.skip(k + 1) =~= s.skip(k + 1) + seq![c] + t);
        law_a_cut_parts_the_pieces(s.skip(k + 1), c, t, at);
        assert(split(all, at) =~= split(s, at) + split(t, at));
    } else {
        let n = s.len() as int;
        assert(all[n] == c);
        assert forall|j: int| 0 <= j < n implies !cuts(at, #[trigger] all[j]) by {
            assert(all[j] == s[j]);
        }
        lemma_first_cut_is(all, at, n);
        assert(all.take(n) =~= s);
        assert(all.skip(n + 1) =~= t);
        assert(split(all, at) =~= split(s, at) + split(t, at));
    }
}

/// A text that is cut nowhere is one piece.
pub proof fn law_what_is_not_cut_is_one_piece(s: Seq<char>, at: Cut)
    requires
        forall|j: int| 0 <= j < s.len() ==> !cuts(at, #[trigger] s[j]),
    ensures
        split(s, at) == seq![s],
{
    lemma_first_cut(s, at);
}

/// Of two lists, the pieces that are not empty are those of the one and then those
/// of the other.
pub proof fn lemma_solid_add(a: Seq<Seq<char>>, b: Seq<Seq<char>>)
    ensures
        solid(a + b) == solid(a) + solid(b),
    decreases a.len(),
{
    if a.len() == 0 {
        assert(a + b =~= b);
        assert(solid(a) + solid(b) =~= solid(b));
    } else {
        assert((a + b)[0] == a[0]);
        assert((a + b).drop_first() =~= a.drop_first() + b);
        lemma_solid_add(a.drop_first(), b);
        assert(solid(a + b) =~= solid(a) + solid(b));
    }
}

/// White space parts the words, and nothing else does.
pub proof fn law_white_space_parts_the_words(s: Seq<char>, c: char, t: Seq<char>)
    requires
        text::is_white(c),
    ensures
        words(s + seq![c] + t) == words(s) + words(t),
{
    law_a_cut_parts_the_pieces(s, c, t, Cut::White);
    lemma_solid_add(split(s, Cut::White), split(t, Cut::White));
}

/// A text without white space is one word, and no word where it is empty.
pub proof fn law_a_word_is_a_word(s: Seq<char>)
    requires
        forall|j: int| 0 <= j < s.len() ==> !text::is_white(#[trigger] s[j]),
    ensures
        s.len() > 0 ==> words(s) == seq![s],
        s.len() == 0 ==> words(s).len() == 0,
{
    law_what_is_not_cut_is_one_piece(s, Cut::White);
    let v = seq![s];
    assert(solid(v.drop_first()) =~= seq![]);
    assert(v[0] == s);
    if s.len() > 0 {
        assert(solid(v) =~= seq![s]);
    }
}

/// A joined text holds each of its pieces.
pub proof fn law_a_joined_text_holds_its_pieces(v: Seq<Seq<char>>, sep: Seq<char>, i: int)
    requires
        0 <= i < v.len(),
    ensures
        text::occurs(join(v, sep), v[i]),
    decreases v.len(),
{
    let none = Seq::<char>::empty();
    if v.len() == 1 {
        text::lemma_occurs_within(none, v[0], none);
        assert(none + v[0] + none =~= v[0]);
    } else {
        let head = v.drop_last();
        let before = join(head, sep);
        if i < head.len() {
            law_a_joined_text_holds_its_pieces(head, sep, i);
            text::lemma_occurs_within(none, before, sep + v.last());
            assert(none + before + (sep + v.last()) =~= join(v, sep));
            assert(head[i] == v[i]);
            text::lemma_occurs_trans(join(v, sep), before, v[i]);
        } else {
            text::lemma_occurs_within(before + sep, v.last(), none);
            assert((before + sep) + v.last() + none =~= join(v, sep));
        }
    }
}

/// What stands before and after a character is parted where it first stands.
pub proof fn law_a_text_is_parted_at_the_first(a: Seq<char>, c: char, b: Seq<char>)
    requires
        !a.contains(c),
    ensures
        halves(a + seq![c] + b, c) == Some((a, b)),
{
    let s = a + seq![c] + b;
    let k = a.len() as int;
    assert(s[k] == c);
    assert forall|j: int| 0 <= j < k implies s[j] != c by {
        assert(s[j] == a[j]);
        if a[j] == c {
            assert(a.contains(c));
        }
    }
    text::lemma_first_of_is(s, c, k);
    assert(s.take(k) =~= a);
    assert(s.skip(k + 1) =~= b);
}

/// A fragment is counted as not there exactly where it does not occur.
pub proof fn law_what_does_not_occur_is_not_counted(s: Seq<char>, p: Seq<char>)
    requires
        p.len() > 0,
    ensures
        occurrences(s, p) == 0 <==> !text::occurs(s, p),
{
    text::lemma_first_place(s, p);
}

/// A fragment that stands in one place only is counted once.
pub proof fn law_one_place_is_counted_once(s: Seq<char>, p: Seq<char>, k: int)
    requires
        p.len() > 0,
        text::stands_at(s, p, k),
        forall|j: int| j != k ==> !text::stands_at(s, p, j),
    ensures
        occurrences(s, p) == 1,
        replaced_once(s, p, p) == s,
        forall|with: Seq<char>| #[trigger]
            replaced_once(s, p, with) == s.take(k) + with + s.skip(k + p.len()),
{
    text::lemma_first_place(s, p);
    let rest = s.skip(k + p.len());
    assert(text::first_place(s, p) == Some(k));
    if text::occurs(rest, p) {
        let j = choose|j: int| text::stands_at(rest, p, j);
        let at = k + p.len() + j;
        assert(s.subrange(at, at + p.len()) =~= rest.subrange(j, j + p.len()));
        assert(text::stands_at(s, p, at));
    }
    law_what_does_not_occur_is_not_counted(rest, p);
    assert(s.take(k) + p + rest =~= s);
}

/// A fragment that stands in two places, one behind the other, is counted more than
/// once.
pub proof fn law_two_places_are_counted_twice(s: Seq<char>, p: Seq<char>, j: int, k: int)
    requires
        p.len() > 0,
        text::stands_at(s, p, j),
        text::stands_at(s, p, k),
        j + p.len() <= k,
    ensures
        occurrences(s, p) >= 2,
{
    text::lemma_first_place(s, p);
    let f = text::first_place(s, p)->0;
    assert(f <= j);
    let rest = s.skip(f + p.len());
    let at = k - f - p.len();
    assert(rest.subrange(at, at + p.len()) =~= s.subrange(k, k + p.len()));
    assert(text::stands_at(rest, p, at));
    law_what_does_not_occur_is_not_counted(rest, p);
}

/// The lines of two texts with a break between them are those of the one and then
/// those of the other.
pub proof fn law_a_break_parts_the_lines(s: Seq<char>, t: Seq<char>)
    ensures
        lines(s + seq!['\n'] + t) == lines(s + seq!['\n']) + lines(t),
    decreases s.len(),
{
    let a = s + seq!['\n'];
    let all = a + t;
    text::lemma_first_of(a, '\n');
    let k = text::first_of(a, '\n');
    assert(a[s.len() as int] == '\n');
    assert(a.contains('\n'));
    assert(0 <= k < a.len());
    assert(all[k] == '\n');
    assert forall|j: int| 0 <= j < k implies all[j] != '\n' by {
        assert(all[j] == a[j]);
    }
    text::lemma_first_of_is(all, '\n', k);
    assert(all.take(k) =~= a.take(k));
    if k == s.len() {
        assert(all.skip(k + 1) =~= t);
        assert(a.skip(k + 1) =~= Seq::<char>::empty());
        assert(lines(a.skip(k + 1)) =~= Seq::<Seq<char>>::empty());
        assert(lines(a) =~= seq![line_body(a.take(k))]);
        assert(lines(all) =~= lines(a) + lines(t));
    } else {
        let rest = s.skip(k + 1);
        assert(all.skip(k + 1) =~= rest + seq!['\n'] + t);
        assert(a.skip(k + 1) =~= rest + seq!['\n']);
        law_a_break_parts_the_lines(rest, t);
        assert(lines(all) =~= lines(a) + lines(t));
    }
}

/// A text is parted in two exactly where the character is in it.
pub proof fn law_what_is_not_there_parts_nothing(s: Seq<char>, c: char)
    ensures
        halves(s, c) is Some <==> s.contains(c),
{
    text::lemma_first_of(s, c);
    let k = text::first_of(s, c);
    if 0 <= k < s.len() {
        assert(s.contains(s[k]));
    } else if s.contains(c) {
        let i = choose|i: int| 0 <= i < s.len() && s[i] == c;
        assert(s[i] == c);
    }
}

} // verus!
