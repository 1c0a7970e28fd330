//! Text as a sequence of characters.
//!
//! Everything the harness reads was written by a model, so nearly every rule in
//! it is a rule about text. The rules are stated here over `Seq<char>` and
//! computed on slices of characters, so that a piece of a reply can be passed on
//! without copying it.

use vstd::prelude::*;
use vstd::slice::slice_subrange;

verus! {

/// `String::push` appends one character to the end of the string and changes
/// nothing else.
pub assume_specification[ String::push ](s: &mut String, c: char)
    ensures
        final(s)@ == old(s)@.push(c),
;

// ---------------------------------------------------------------- conversions

/// The texts of a sequence of slices.
pub open spec fn pieces(v: Seq<&[char]>) -> Seq<Seq<char>> {
    v.map_values(|p: &[char]| p@)
}

/// The texts of a sequence of strings.
pub open spec fn texts(v: Seq<String>) -> Seq<Seq<char>> {
    v.map_values(|p: String| p@)
}

pub proof fn lemma_texts_push(v: Seq<String>, s: String)
    ensures
        texts(v.push(s)) == texts(v).push(s@),
{
    assert(texts(v.push(s)) =~= texts(v).push(s@));
}

/// The texts of a sequence of names.
pub open spec fn names(v: Seq<&str>) -> Seq<Seq<char>> {
    v.map_values(|p: &str| p@)
}

/// The characters of a string.
pub fn chars_of(s: &str) -> (v: Vec<char>)
    ensures
        v@ == s@,
{
    let mut v: Vec<char> = Vec::new();
    for c in it: s.chars()
        invariant
            v@ == it.seq().take(it.index() as int),
            it.seq() == s@,
    {
        v.push(c);
    }
    v
}

/// The string made of the given characters.
pub fn string_of(v: &[char]) -> (s: String)
    ensures
        s@ == v@,
{
    let mut s = String::new();
    push_chars(&mut s, v);
    s
}

/// Appends characters to a string.
pub fn push_chars(s: &mut String, v: &[char])
    ensures
        final(s)@ == old(s)@ + v@,
{
    let ghost before = s@;
    let mut i: usize = 0;
    while i < v.len()
        invariant
            i <= v.len(),
            s@ == before + v@.take(i as int),
        decreases v.len() - i,
    {
        s.push(v[i]);
        i = i + 1;
        assert(v@.take(i as int) =~= v@.take(i - 1).push(v@[i - 1]));
    }
    assert(v@.take(i as int) =~= v@);
}

/// Whether two strings hold the same text.
pub fn same(a: &str, b: &str) -> (r: bool)
    ensures
        r == (a@ == b@),
{
    a.to_owned() == b.to_owned()
}

/// Whether a piece of text is exactly `literal`.
pub fn reads(s: &[char], literal: &str) -> (r: bool)
    ensures
        r == (s@ == literal@),
{
    let l = chars_of(literal);
    equal(s, l.as_slice())
}

/// Whether two pieces hold the same characters.
pub fn equal(a: &[char], b: &[char]) -> (r: bool)
    ensures
        r == (a@ == b@),
{
    if a.len() != b.len() {
        return false;
    }
    let mut i: usize = 0;
    while i < a.len()
        invariant
            i <= a.len(),
            a.len() == b.len(),
            forall|j: int| 0 <= j < i ==> a@[j] == b@[j],
        decreases a.len() - i,
    {
        if a[i] != b[i] {
            return false;
        }
        i = i + 1;
    }
    assert(a@ =~= b@);
    true
}

/// How many bytes the text takes in UTF-8.
pub open spec fn byte_len(s: Seq<char>) -> nat {
    vstd::utf8::encode_utf8(s).len()
}

/// The length in bytes of a piece of text.
pub fn byte_length(s: &[char]) -> (n: usize)
    ensures
        n == byte_len(s@),
{
    string_of(s).as_str().as_bytes().len()
}

// ------------------------------------------------------------------ prefixes

/// Whether `s` begins with `p`.
pub open spec fn starts_with(s: Seq<char>, p: Seq<char>) -> bool {
    p.len() <= s.len() && s.take(p.len() as int) == p
}

/// Whether `s` ends with `p`.
pub open spec fn ends_with(s: Seq<char>, p: Seq<char>) -> bool {
    p.len() <= s.len() && s.skip(s.len() - p.len()) == p
}

pub fn begins_with(s: &[char], p: &[char]) -> (r: bool)
    ensures
        r == starts_with(s@, p@),
{
    if p.len() > s.len() {
        return false;
    }
    equal(slice_subrange(s, 0, p.len()), p)
}

pub fn begins(s: &[char], literal: &str) -> (r: bool)
    ensures
        r == starts_with(s@, literal@),
{
    let l = chars_of(literal);
    begins_with(s, l.as_slice())
}

pub fn ends(s: &[char], literal: &str) -> (r: bool)
    ensures
        r == ends_with(s@, literal@),
{
    let l = chars_of(literal);
    if l.len() > s.len() {
        return false;
    }
    equal(slice_subrange(s, s.len() - l.len(), s.len()), l.as_slice())
}

/// What follows the prefix `p`, or nothing when `s` does not begin with it.
pub open spec fn after_prefix(s: Seq<char>, p: Seq<char>) -> Option<Seq<char>> {
    if starts_with(s, p) {
        Some(s.skip(p.len() as int))
    } else {
        None
    }
}

pub fn strip_prefix<'a>(s: &'a [char], literal: &str) -> (r: Option<&'a [char]>)
    ensures
        r is Some == after_prefix(s@, literal@) is Some,
        r matches Some(rest) ==> Some(rest@) == after_prefix(s@, literal@),
{
    let l = chars_of(literal);
    if begins_with(s, l.as_slice()) {
        Some(slice_subrange(s, l.len(), s.len()))
    } else {
        None
    }
}

/// `s` without the suffix `p` where it has it, and `s` itself where not.
pub open spec fn without_suffix(s: Seq<char>, p: Seq<char>) -> Seq<char> {
    if ends_with(s, p) {
        s.take(s.len() - p.len())
    } else {
        s
    }
}

/// `s` without the prefix `p` where it has it, and `s` itself where not.
pub open spec fn without_prefix(s: Seq<char>, p: Seq<char>) -> Seq<char> {
    if starts_with(s, p) {
        s.skip(p.len() as int)
    } else {
        s
    }
}

pub fn drop_suffix<'a>(s: &'a [char], literal: &str) -> (r: &'a [char])
    ensures
        r@ == without_suffix(s@, literal@),
{
    let l = chars_of(literal);
    if ends(s, literal) {
        slice_subrange(s, 0, s.len() - l.len())
    } else {
        s
    }
}

pub fn drop_prefix<'a>(s: &'a [char], literal: &str) -> (r: &'a [char])
    ensures
        r@ == without_prefix(s@, literal@),
{
    let l = chars_of(literal);
    if begins(s, literal) {
        slice_subrange(s, l.len(), s.len())
    } else {
        s
    }
}

// ---------------------------------------------------------------- whitespace

/// The characters with the Unicode property `White_Space`.
pub open spec fn is_white(c: char) -> bool {
    let n = c as u32;
    ||| 0x9 <= n <= 0xd
    ||| n == 0x20
    ||| n == 0x85
    ||| n == 0xa0
    ||| n == 0x1680
    ||| 0x2000 <= n <= 0x200a
    ||| n == 0x2028
    ||| n == 0x2029
    ||| n == 0x202f
    ||| n == 0x205f
    ||| n == 0x3000
}

pub fn white(c: char) -> (r: bool)
    ensures
        r == is_white(c),
{
    let n: u32 = c as u32;
    (0x9 <= n && n <= 0xd) || n == 0x20 || n == 0x85 || n == 0xa0 || n == 0x1680 || (0x2000 <= n
        && n <= 0x200a) || n == 0x2028 || n == 0x2029 || n == 0x202f || n == 0x205f || n == 0x3000
}

/// `s` without the whitespace it begins with.
pub open spec fn trim_start(s: Seq<char>) -> Seq<char>
    decreases s.len(),
{
    if s.len() > 0 && is_white(s[0]) {
        trim_start(s.drop_first())
    } else {
        s
    }
}

/// `s` without the whitespace it ends with.
pub open spec fn trim_end(s: Seq<char>) -> Seq<char>
    decreases s.len(),
{
    if s.len() > 0 && is_white(s.last()) {
        trim_end(s.drop_last())
    } else {
        s
    }
}

/// `s` without the whitespace at either end.
pub open spec fn trim(s: Seq<char>) -> Seq<char> {
    trim_end(trim_start(s))
}

pub fn trimmed_start<'a>(s: &'a [char]) -> (r: &'a [char])
    ensures
        r@ == trim_start(s@),
{
    let mut i: usize = 0;
    assert(s@.skip(0) =~= s@);
    while i < s.len() && white(s[i])
        invariant
            i <= s.len(),
            trim_start(s@.skip(i as int)) == trim_start(s@),
        decreases s.len() - i,
    {
        assert(s@.skip(i as int).drop_first() =~= s@.skip(i + 1));
        i = i + 1;
    }
    slice_subrange(s, i, s.len())
}

pub fn trimmed_end<'a>(s: &'a [char]) -> (r: &'a [char])
    ensures
        r@ == trim_end(s@),
{
    let mut n: usize = s.len();
    assert(s@.take(n as int) =~= s@);
    while n > 0 && white(s[n - 1])
        invariant
            n <= s.len(),
            trim_end(s@.take(n as int)) == trim_end(s@),
        decreases n,
    {
        assert(s@.take(n as int).drop_last() =~= s@.take(n - 1));
        n = n - 1;
    }
    assert(n > 0 ==> s@.take(n as int).last() == s@[n - 1]);
    slice_subrange(s, 0, n)
}

pub fn trimmed<'a>(s: &'a [char]) -> (r: &'a [char])
    ensures
        r@ == trim(s@),
{
    trimmed_end(trimmed_start(s))
}

/// Whether `s` neither begins nor ends with whitespace.
pub open spec fn is_trimmed(s: Seq<char>) -> bool {
    s.len() > 0 ==> !is_white(s[0]) && !is_white(s.last())
}

/// Whether `s` is whitespace throughout.
pub open spec fn all_white(s: Seq<char>) -> bool {
    forall|i: int| 0 <= i < s.len() ==> is_white(#[trigger] s[i])
}

pub proof fn lemma_trim_start(s: Seq<char>)
    ensures
        trim_start(s).len() <= s.len(),
        trim_start(s) == s.skip(s.len() - trim_start(s).len()),
        trim_start(s).len() > 0 ==> !is_white(trim_start(s)[0]),
    decreases s.len(),
{
    if s.len() > 0 && is_white(s[0]) {
        lemma_trim_start(s.drop_first());
        assert(trim_start(s) =~= s.skip(s.len() - trim_start(s).len()));
    } else {
        assert(s.skip(0) =~= s);
    }
}

pub proof fn lemma_trim_end(s: Seq<char>)
    ensures
        trim_end(s).len() <= s.len(),
        trim_end(s) == s.take(trim_end(s).len() as int),
        trim_end(s).len() > 0 ==> !is_white(trim_end(s).last()),
    decreases s.len(),
{
    if s.len() > 0 && is_white(s.last()) {
        lemma_trim_end(s.drop_last());
        assert(trim_end(s) =~= s.take(trim_end(s).len() as int));
    } else {
        assert(s.take(s.len() as int) =~= s);
    }
}

/// Trimming leaves a part of the text, and nothing more to trim.
pub proof fn lemma_trim(s: Seq<char>)
    ensures
        is_trimmed(trim(s)),
        trim(s).len() <= s.len(),
        forall|c: char| trim(s).contains(c) ==> s.contains(c),
{
    lemma_trim_start(s);
    let a = trim_start(s);
    lemma_trim_end(a);
    let t = trim(s);
    if t.len() > 0 {
        assert(t[0] == a[0]);
    }
    assert forall|c: char| t.contains(c) implies s.contains(c) by {
        let i = choose|i: int| 0 <= i < t.len() && t[i] == c;
        assert(t[i] == a[i]);
        assert(a[i] == s[s.len() - a.len() + i]);
    }
}

pub proof fn lemma_trim_start_white(l: Seq<char>, t: Seq<char>)
    requires
        all_white(l),
    ensures
        trim_start(l + t) == trim_start(t),
    decreases l.len(),
{
    if l.len() == 0 {
        assert(l + t =~= t);
    } else {
        assert(is_white(l[0]));
        assert((l + t).drop_first() =~= l.drop_first() + t);
        assert forall|i: int| 0 <= i < l.drop_first().len() implies is_white(#[trigger] l.drop_first()[i]) by {
            assert(l.drop_first()[i] == l[i + 1]);
        }
        lemma_trim_start_white(l.drop_first(), t);
    }
}

pub proof fn lemma_trim_end_white(t: Seq<char>, r: Seq<char>)
    requires
        all_white(r),
    ensures
        trim_end(t + r) == trim_end(t),
    decreases r.len(),
{
    if r.len() == 0 {
        assert(t + r =~= t);
    } else {
        assert(is_white(r[r.len() - 1]));
        assert((t + r).last() == r.last());
        assert((t + r).drop_last() =~= t + r.drop_last());
        assert forall|i: int| 0 <= i < r.drop_last().len() implies is_white(#[trigger] r.drop_last()[i]) by {
            assert(r.drop_last()[i] == r[i]);
        }
        lemma_trim_end_white(t, r.drop_last());
    }
}

/// Whitespace around a trimmed text is trimmed away, and nothing else.
pub proof fn lemma_trim_padded(l: Seq<char>, t: Seq<char>, r: Seq<char>)
    requires
        all_white(l),
        all_white(r),
        is_trimmed(t),
    ensures
        trim(l + t + r) == t,
{
    assert(l + t + r =~= l + (t + r));
    lemma_trim_start_white(l, t + r);
    if t.len() == 0 {
        assert(t + r =~= r);
        lemma_trim_start_white(r, t);
        assert(r + t =~= r);
        assert(trim_start(r) =~= t);
    } else {
        assert((t + r)[0] == t[0]);
        lemma_trim_end_white(t, r);
    }
}

/// Trimming has no effect the second time.
pub proof fn lemma_trim_fixed(s: Seq<char>)
    requires
        is_trimmed(s),
    ensures
        trim(s) == s,
        trim_start(s) == s,
        trim_end(s) == s,
{
}

/// Whether `s` holds nothing but whitespace.
pub open spec fn is_blank(s: Seq<char>) -> bool {
    trim(s).len() == 0
}

// ------------------------------------------------------------ sets of characters

pub fn in_set(c: char, set: &[char]) -> (r: bool)
    ensures
        r == set@.contains(c),
{
    let mut i: usize = 0;
    while i < set.len()
        invariant
            i <= set.len(),
            forall|j: int| 0 <= j < i ==> set@[j] != c,
        decreases set.len() - i,
    {
        if set[i] == c {
            return true;
        }
        i = i + 1;
    }
    false
}

/// `s` without the characters of `set` that it begins with.
pub open spec fn strip_start(s: Seq<char>, set: Seq<char>) -> Seq<char>
    decreases s.len(),
{
    if s.len() > 0 && set.contains(s[0]) {
        strip_start(s.drop_first(), set)
    } else {
        s
    }
}

/// `s` without the characters of `set` that it ends with.
pub open spec fn strip_end(s: Seq<char>, set: Seq<char>) -> Seq<char>
    decreases s.len(),
{
    if s.len() > 0 && set.contains(s.last()) {
        strip_end(s.drop_last(), set)
    } else {
        s
    }
}

/// `s` without the characters of `set` at either end.
pub open spec fn strip_both(s: Seq<char>, set: Seq<char>) -> Seq<char> {
    strip_end(strip_start(s, set), set)
}

pub fn stripped_start<'a>(s: &'a [char], set: &str) -> (r: &'a [char])
    ensures
        r@ == strip_start(s@, set@),
{
    let set = chars_of(set);
    let mut i: usize = 0;
    assert(s@.skip(0) =~= s@);
    while i < s.len() && in_set(s[i], set.as_slice())
        invariant
            i <= s.len(),
            strip_start(s@.skip(i as int), set@) == strip_start(s@, set@),
        decreases s.len() - i,
    {
        assert(s@.skip(i as int).drop_first() =~= s@.skip(i + 1));
        i = i + 1;
    }
    slice_subrange(s, i, s.len())
}

pub fn stripped_end<'a>(s: &'a [char], set: &str) -> (r: &'a [char])
    ensures
        r@ == strip_end(s@, set@),
{
    let set = chars_of(set);
    let mut n: usize = s.len();
    assert(s@.take(n as int) =~= s@);
    while n > 0 && in_set(s[n - 1], set.as_slice())
        invariant
            n <= s.len(),
            strip_end(s@.take(n as int), set@) == strip_end(s@, set@),
        decreases n,
    {
        assert(s@.take(n as int).drop_last() =~= s@.take(n - 1));
        n = n - 1;
    }
    assert(n > 0 ==> s@.take(n as int).last() == s@[n - 1]);
    slice_subrange(s, 0, n)
}

pub fn stripped_both<'a>(s: &'a [char], set: &str) -> (r: &'a [char])
    ensures
        r@ == strip_both(s@, set@),
{
    stripped_end(stripped_start(s, set), set)
}

// -------------------------------------------------------------------- search

/// The place of the first `c` in `s`, or the length of `s` where it holds none.
pub open spec fn first_of(s: Seq<char>, c: char) -> int
    decreases s.len(),
{
    if s.len() == 0 || s[0] == c {
        0
    } else {
        1 + first_of(s.drop_first(), c)
    }
}

pub proof fn lemma_first_of(s: Seq<char>, c: char)
    ensures
        0 <= first_of(s, c) <= s.len(),
        first_of(s, c) < s.len() ==> s[first_of(s, c)] == c,
        forall|j: int| 0 <= j < first_of(s, c) ==> s[j] != c,
    decreases s.len(),
{
    if s.len() > 0 && s[0] != c {
        lemma_first_of(s.drop_first(), c);
        assert forall|j: int| 0 <= j < first_of(s, c) implies s[j] != c by {
            if j > 0 {
                assert(s.drop_first()[j - 1] == s[j]);
            }
        }
    }
}

/// The only place that is the first of its kind.
pub proof fn lemma_first_of_is(s: Seq<char>, c: char, k: int)
    requires
        0 <= k <= s.len(),
        k < s.len() ==> s[k] == c,
        forall|j: int| 0 <= j < k ==> s[j] != c,
    ensures
        first_of(s, c) == k,
{
    lemma_first_of(s, c);
}

pub fn find_char(s: &[char], c: char) -> (n: usize)
    ensures
        n == first_of(s@, c),
        n <= s.len(),
{
    let mut i: usize = 0;
    while i < s.len() && s[i] != c
        invariant
            i <= s.len(),
            forall|j: int| 0 <= j < i ==> s@[j] != c,
        decreases s.len() - i,
    {
        i = i + 1;
    }
    proof {
        lemma_first_of_is(s@, c, i as int);
    }
    i
}

pub fn has_char(s: &[char], c: char) -> (r: bool)
    ensures
        r == s@.contains(c),
{
    in_set(c, s)
}

/// Whether `p` stands in `s` at place `i`.
pub open spec fn stands_at(s: Seq<char>, p: Seq<char>, i: int) -> bool {
    0 <= i <= s.len() - p.len() && s.subrange(i, i + p.len()) == p
}

/// Whether `p` occurs in `s`.
pub open spec fn occurs(s: Seq<char>, p: Seq<char>) -> bool {
    exists|i: int| stands_at(s, p, i)
}

/// The first place where `p` stands in `s`.
pub open spec fn first_place(s: Seq<char>, p: Seq<char>) -> Option<int>
    decreases s.len(),
{
    if starts_with(s, p) {
        Some(0)
    } else if s.len() == 0 {
        None
    } else {
        match first_place(s.drop_first(), p) {
            Some(i) => Some(i + 1),
            None => None,
        }
    }
}

pub proof fn lemma_first_place(s: Seq<char>, p: Seq<char>)
    ensures
        first_place(s, p) is Some == occurs(s, p),
        first_place(s, p) matches Some(k) ==> {
            &&& stands_at(s, p, k)
            &&& forall|j: int| 0 <= j < k ==> !stands_at(s, p, j)
        },
    decreases s.len(),
{
    if starts_with(s, p) {
        assert(s.subrange(0, p.len() as int) =~= s.take(p.len() as int));
        assert(stands_at(s, p, 0));
    } else {
        assert(!stands_at(s, p, 0)) by {
            if stands_at(s, p, 0) {
                assert(s.subrange(0, p.len() as int) =~= s.take(p.len() as int));
            }
        }
        if s.len() > 0 {
            let t = s.drop_first();
            lemma_first_place(t, p);
            assert forall|i: int| 0 <= i < s.len() implies stands_at(t, p, i) == stands_at(s, p, i + 1) by {
                if 0 <= i <= t.len() - p.len() {
                    assert(t.subrange(i, i + p.len()) =~= s.subrange(i + 1, i + 1 + p.len()));
                }
            }
            if occurs(s, p) {
                let i = choose|i: int| stands_at(s, p, i);
                assert(i > 0);
                assert(stands_at(t, p, i - 1));
            }
            if occurs(t, p) {
                let i = choose|i: int| stands_at(t, p, i);
                assert(stands_at(s, p, i + 1));
            }
            if let Some(k) = first_place(t, p) {
                assert(stands_at(s, p, k + 1));
                assert forall|j: int| 0 <= j < k + 1 implies !stands_at(s, p, j) by {
                    if j > 0 {
                        assert(!stands_at(t, p, j - 1));
                    }
                }
            }
        }
    }
}

pub fn find(s: &[char], p: &[char]) -> (r: Option<usize>)
    ensures
        r is Some == first_place(s@, p@) is Some,
        r matches Some(i) ==> Some(i as int) == first_place(s@, p@) && i + p.len() <= s.len(),
{
    let mut i: usize = 0;
    proof {
        lemma_first_place(s@, p@);
    }
    if p.len() > s.len() {
        return None;
    }
    let last: usize = s.len() - p.len();
    while i <= last
        invariant
            i <= last + 1,
            last + p.len() == s.len(),
            forall|j: int| 0 <= j < i ==> !stands_at(s@, p@, j),
            first_place(s@, p@) is Some == occurs(s@, p@),
            first_place(s@, p@) matches Some(k) ==> stands_at(s@, p@, k) && forall|j: int|
                0 <= j < k ==> !stands_at(s@, p@, j),
        decreases last + 1 - i,
    {
        if equal(slice_subrange(s, i, i + p.len()), p) {
            assert(stands_at(s@, p@, i as int));
            return Some(i);
        }
        if i == last {
            assert(forall|j: int| !stands_at(s@, p@, j));
            return None;
        }
        i = i + 1;
    }
    None
}

pub fn mentions(s: &[char], literal: &str) -> (r: bool)
    ensures
        r == occurs(s@, literal@),
{
    let l = chars_of(literal);
    proof {
        lemma_first_place(s@, literal@);
    }
    find(s, l.as_slice()).is_some()
}

/// The last place where `p` stands in `s`.
pub open spec fn last_place(s: Seq<char>, p: Seq<char>) -> Option<int>
    decreases s.len(),
{
    if ends_with(s, p) {
        Some(s.len() - p.len())
    } else if s.len() == 0 {
        None
    } else {
        last_place(s.drop_last(), p)
    }
}

pub fn find_last(s: &[char], literal: &str) -> (r: Option<usize>)
    ensures
        r is Some == last_place(s@, literal@) is Some,
        r matches Some(i) ==> Some(i as int) == last_place(s@, literal@) && i + literal@.len()
            <= s.len(),
{
    let l = chars_of(literal);
    let mut n: usize = s.len();
    assert(s@.take(n as int) =~= s@);
    loop
        invariant
            n <= s.len(),
            l@ == literal@,
            last_place(s@.take(n as int), literal@) == last_place(s@, literal@),
        decreases n,
    {
        let head = slice_subrange(s, 0, n);
        assert(head@ =~= s@.take(n as int));
        if ends(head, literal) {
            return Some(n - l.len());
        }
        if n == 0 {
            return None;
        }
        assert(s@.take(n as int).drop_last() =~= s@.take(n - 1));
        n = n - 1;
    }
}

// ------------------------------------------------------------- upper and lower

/// An ASCII capital becomes the small letter; everything else stays.
pub open spec fn lower_char(c: char) -> char {
    if 'A' <= c && c <= 'Z' {
        ((c as u8) + 32) as u8 as char
    } else {
        c
    }
}

/// The text with its ASCII capitals made small.
pub open spec fn lower(s: Seq<char>) -> Seq<char> {
    s.map_values(|c: char| lower_char(c))
}

/// Whether two texts differ in the case of ASCII letters at most.
pub open spec fn same_letters(a: Seq<char>, b: Seq<char>) -> bool {
    lower(a) == lower(b)
}

pub fn lowered_char(c: char) -> (r: char)
    ensures
        r == lower_char(c),
{
    if 'A' <= c && c <= 'Z' {
        let b: u8 = c as u8;
        (b + 32) as char
    } else {
        c
    }
}

pub fn lowered(s: &[char]) -> (v: Vec<char>)
    ensures
        v@ == lower(s@),
{
    let mut v: Vec<char> = Vec::new();
    let mut i: usize = 0;
    while i < s.len()
        invariant
            i <= s.len(),
            v@ == lower(s@).take(i as int),
        decreases s.len() - i,
    {
        v.push(lowered_char(s[i]));
        i = i + 1;
        assert(lower(s@).take(i as int) =~= lower(s@).take(i - 1).push(lower(s@)[i - 1]));
    }
    assert(lower(s@).take(i as int) =~= lower(s@));
    v
}

pub fn is_ignoring_case(s: &[char], literal: &str) -> (r: bool)
    ensures
        r == same_letters(s@, literal@),
{
    let l = chars_of(literal);
    let a = lowered(s);
    let b = lowered(l.as_slice());
    equal(a.as_slice(), b.as_slice())
}

// ---------------------------------------------------------------------- order

/// Whether `a` comes before `b` in the order of their characters.
pub open spec fn before(a: Seq<char>, b: Seq<char>) -> bool
    decreases a.len(),
{
    if b.len() == 0 {
        false
    } else if a.len() == 0 {
        true
    } else if a[0] == b[0] {
        before(a.drop_first(), b.drop_first())
    } else {
        a[0] < b[0]
    }
}

pub proof fn lemma_before_irreflexive(a: Seq<char>)
    ensures
        !before(a, a),
    decreases a.len(),
{
    if a.len() > 0 {
        lemma_before_irreflexive(a.drop_first());
    }
}

pub proof fn lemma_before_transitive(a: Seq<char>, b: Seq<char>, c: Seq<char>)
    requires
        before(a, b),
        before(b, c),
    ensures
        before(a, c),
    decreases a.len(),
{
    if a.len() > 0 && b.len() > 0 && c.len() > 0 {
        if a[0] == b[0] && b[0] == c[0] {
            lemma_before_transitive(a.drop_first(), b.drop_first(), c.drop_first());
        }
    }
}

pub proof fn lemma_before_total(a: Seq<char>, b: Seq<char>)
    ensures
        before(a, b) || a == b || before(b, a),
    decreases a.len(),
{
    if a.len() == 0 && b.len() == 0 {
        assert(a =~= b);
    }
    if a.len() > 0 && b.len() > 0 && a[0] == b[0] {
        lemma_before_total(a.drop_first(), b.drop_first());
        if a.drop_first() == b.drop_first() {
            assert(a =~= seq![a[0]] + a.drop_first());
            assert(b =~= seq![b[0]] + b.drop_first());
        }
    }
}

pub fn comes_before(a: &str, b: &str) -> (r: bool)
    ensures
        r == before(a@, b@),
{
    let x = chars_of(a);
    let y = chars_of(b);
    let mut i: usize = 0;
    assert(x@.skip(0) =~= x@);
    assert(y@.skip(0) =~= y@);
    loop
        invariant
            i <= x.len(),
            i <= y.len(),
            x@ == a@,
            y@ == b@,
            before(x@.skip(i as int), y@.skip(i as int)) == before(x@, y@),
        decreases x.len() - i,
    {
        if i == y.len() {
            return false;
        }
        if i == x.len() {
            return true;
        }
        if x[i] != y[i] {
            return x[i] < y[i];
        }
        assert(x@.skip(i as int).drop_first() =~= x@.skip(i + 1));
        assert(y@.skip(i as int).drop_first() =~= y@.skip(i + 1));
        i = i + 1;
    }
}

/// `s` with every `from` replaced by `to`.
pub open spec fn with_char(s: Seq<char>, from: char, to: char) -> Seq<char> {
    s.map_values(|c: char| if c == from { to } else { c })
}

pub fn replace_char(s: &[char], from: char, to: char) -> (r: String)
    ensures
        r@ == with_char(s@, from, to),
{
    let mut r = String::new();
    let mut i: usize = 0;
    let ghost whole = with_char(s@, from, to);
    while i < s.len()
        invariant
            i <= s.len(),
            whole == with_char(s@, from, to),
            r@ == whole.take(i as int),
        decreases s.len() - i,
    {
        if s[i] == from {
            r.push(to);
        } else {
            r.push(s[i]);
        }
        i = i + 1;
        assert(whole.take(i as int) =~= whole.take(i - 1).push(whole[i - 1]));
    }
    assert(whole.take(i as int) =~= whole);
    r
}

/// Whether every character is an ASCII one.
pub open spec fn is_ascii(s: Seq<char>) -> bool {
    forall|i: int| 0 <= i < s.len() ==> (#[trigger] s[i] as u32) < 128
}

/// What `str::to_lowercase` makes of a text.
pub uninterp spec fn unicode_lower(s: Seq<char>) -> Seq<char>;

/// `str::to_lowercase` depends on nothing but the text it is given.
#[verifier::external_body]
fn to_lowercase(s: &str) -> (r: String)
    ensures
        r@ == unicode_lower(s@),
{
    s.to_lowercase()
}

/// The text in lower case. Within ASCII that is a rule of one line.
pub open spec fn lower_case(s: Seq<char>) -> Seq<char> {
    if is_ascii(s) {
        lower(s)
    } else {
        unicode_lower(s)
    }
}

pub fn in_lower_case(s: &[char]) -> (r: String)
    ensures
        r@ == lower_case(s@),
{
    let mut i: usize = 0;
    while i < s.len() && (s[i] as u32) < 128
        invariant
            i <= s.len(),
            forall|j: int| 0 <= j < i ==> (#[trigger] s@[j] as u32) < 128,
        decreases s.len() - i,
    {
        i = i + 1;
    }
    if i == s.len() {
        let v = lowered(s);
        string_of(v.as_slice())
    } else {
        let t = string_of(s);
        to_lowercase(t.as_str())
    }
}

// -------------------------------------------------------------------------- laws

/// What a text is made of occurs in it.
pub proof fn lemma_occurs_within(a: Seq<char>, b: Seq<char>, c: Seq<char>)
    ensures
        occurs(a + b + c, b),
        stands_at(a + b + c, b, a.len() as int),
{
    let s = a + b + c;
    let i = a.len() as int;
    assert(s.subrange(i, i + b.len()) =~= b);
    assert(stands_at(s, b, i));
}

/// What occurs in a part of a text occurs in the text.
pub proof fn lemma_occurs_trans(s: Seq<char>, p: Seq<char>, q: Seq<char>)
    requires
        occurs(s, p),
        occurs(p, q),
    ensures
        occurs(s, q),
{
    let i = choose|i: int| stands_at(s, p, i);
    let j = choose|j: int| stands_at(p, q, j);
    assert(s.subrange(i + j, i + j + q.len()) =~= s.subrange(i, i + p.len()).subrange(j, j + q.len()));
    assert(stands_at(s, q, i + j));
}

/// The last place where one text stands in another is one where it does, and it
/// does at none after it; there is none exactly where it does not occur.
pub proof fn law_the_last_place_is_the_last(s: Seq<char>, p: Seq<char>)
    ensures
        last_place(s, p) is Some == occurs(s, p),
        last_place(s, p) matches Some(k) ==> stands_at(s, p, k) && forall|j: int| k < j ==> !stands_at(s, p, j),
    decreases s.len(),
{
    if ends_with(s, p) {
        let k = s.len() - p.len();
        assert(s.subrange(k, k + p.len()) =~= s.skip(k));
        assert(stands_at(s, p, k));
    } else if s.len() == 0 {
        assert forall|j: int| !stands_at(s, p, j) by {
            if stands_at(s, p, j) {
                assert(p.len() == 0);
                assert(s.skip(0) =~= p);
            }
        }
    } else {
        let t = s.drop_last();
        law_the_last_place_is_the_last(t, p);
        assert forall|j: int| stands_at(s, p, j) == stands_at(t, p, j) by {
            if stands_at(s, p, j) {
                if j == s.len() - p.len() {
                    assert(s.skip(j) =~= s.subrange(j, j + p.len()));
                    assert(false);
                }
                assert(t.subrange(j, j + p.len()) =~= s.subrange(j, j + p.len()));
            }
            if stands_at(t, p, j) {
                assert(t.subrange(j, j + p.len()) =~= s.subrange(j, j + p.len()));
            }
        }
        if occurs(s, p) {
            let j = choose|j: int| stands_at(s, p, j);
            assert(stands_at(t, p, j));
        }
        if occurs(t, p) {
            let j = choose|j: int| stands_at(t, p, j);
            assert(stands_at(s, p, j));
        }
    }
}

/// Texts are ordered as in a dictionary: by the first character in which they
/// differ, and one that goes on comes after the one it goes on from.
pub proof fn law_texts_are_ordered_by_where_they_differ(
    p: Seq<char>,
    x: char,
    a: Seq<char>,
    y: char,
    b: Seq<char>,
)
    ensures
        x != y ==> (before(p + seq![x] + a, p + seq![y] + b) <==> x < y),
        before(p, p + seq![x] + a),
        !before(p + seq![x] + a, p),
    decreases p.len(),
{
    let s = p + seq![x] + a;
    let t = p + seq![y] + b;
    if p.len() == 0 {
        assert(s[0] == x && t[0] == y);
    } else {
        let q = p.drop_first();
        assert(s[0] == p[0] && t[0] == p[0]);
        assert(s.drop_first() =~= q + seq![x] + a);
        assert(t.drop_first() =~= q + seq![y] + b);
        law_texts_are_ordered_by_where_they_differ(q, x, a, y, b);
    }
}

/// Blanks, tabs and the ends of lines are white; nothing that is printed is.
pub proof fn law_what_is_printed_is_not_white(c: char)
    ensures
        is_white(' ') && is_white('\t') && is_white('\n') && is_white('\r'),
        '!' <= c && c <= '~' ==> !is_white(c),
{
}

/// Only capitals change in lower case, each to the letter it is the capital of; and
/// what is in lower case stays so.
pub proof fn law_only_capitals_are_lowered(s: Seq<char>, i: int)
    requires
        0 <= i < s.len(),
    ensures
        lower(s).len() == s.len(),
        'A' <= s[i] && s[i] <= 'Z' ==> lower(s)[i] as int == s[i] as int + 32,
        !('A' <= s[i] && s[i] <= 'Z') ==> lower(s)[i] == s[i],
        lower(lower(s)) == lower(s),
{
    assert forall|j: int| 0 <= j < s.len() implies lower(lower(s))[j] == lower(s)[j] by {
        lemma_lowered_once(s[j]);
    }
    assert(lower(lower(s)) =~= lower(s));
    lemma_lowered_once(s[i]);
}

proof fn lemma_lowered_once(c: char)
    ensures
        lower_char(lower_char(c)) == lower_char(c),
        'A' <= c && c <= 'Z' ==> lower_char(c) as int == c as int + 32,
{
}

/// What is stripped from the front is all that is of the set, and nothing else.
pub proof fn law_the_front_is_stripped_of_the_set(s: Seq<char>, set: Seq<char>)
    ensures
        strip_start(s, set).len() <= s.len(),
        strip_start(s, set) == s.skip(s.len() - strip_start(s, set).len()),
        strip_start(s, set).len() > 0 ==> !set.contains(strip_start(s, set)[0]),
        forall|i: int| 0 <= i < s.len() - strip_start(s, set).len() ==> set.contains(#[trigger] s[i]),
    decreases s.len(),
{
    if s.len() > 0 && set.contains(s[0]) {
        let r = s.drop_first();
        law_the_front_is_stripped_of_the_set(r, set);
        let n = s.len() - strip_start(s, set).len();
        assert(strip_start(s, set) =~= s.skip(n));
        assert forall|i: int| 0 <= i < n implies set.contains(#[trigger] s[i]) by {
            if i > 0 {
                assert(r[i - 1] == s[i]);
            }
        }
    } else {
        assert(s.skip(0) =~= s);
    }
}

/// What is stripped from the end is all that is of the set, and nothing else.
pub proof fn law_the_end_is_stripped_of_the_set(s: Seq<char>, set: Seq<char>)
    ensures
        strip_end(s, set).len() <= s.len(),
        strip_end(s, set) == s.take(strip_end(s, set).len() as int),
        strip_end(s, set).len() > 0 ==> !set.contains(strip_end(s, set).last()),
        forall|i: int| strip_end(s, set).len() <= i < s.len() ==> set.contains(#[trigger] s[i]),
    decreases s.len(),
{
    if s.len() > 0 && set.contains(s.last()) {
        let r = s.drop_last();
        law_the_end_is_stripped_of_the_set(r, set);
        assert(strip_end(s, set) =~= s.take(strip_end(s, set).len() as int));
        assert forall|i: int| strip_end(s, set).len() <= i < s.len() implies set.contains(#[trigger] s[i]) by {
            if i < r.len() {
                assert(r[i] == s[i]);
            }
        }
    } else {
        assert(s.take(s.len() as int) =~= s);
    }
}

/// The first place is one where the text stands, and there is none before it.
pub proof fn law_the_first_place_is_the_first(a: Seq<char>, p: Seq<char>, b: Seq<char>)
    ensures
        first_place(a + p + b, p) matches Some(i) && 0 <= i <= a.len() && stands_at(a + p + b, p, i) && forall|j: int|
            0 <= j < i ==> !stands_at(a + p + b, p, j),
{
    let s = a + p + b;
    lemma_occurs_within(a, p, b);
    lemma_first_place(s, p);
}

/// Where a prefix or a suffix stands it is taken off, and once.
pub proof fn law_a_prefix_is_taken_off_once(s: Seq<char>, p: Seq<char>)
    ensures
        without_prefix(p + s, p) == s,
        after_prefix(p + s, p) == Some(s),
        without_suffix(s + p, p) == s,
        starts_with(p + s, p),
        ends_with(s + p, p),
{
    assert((p + s).take(p.len() as int) =~= p);
    assert((p + s).skip(p.len() as int) =~= s);
    assert((s + p).skip(s.len() as int) =~= p);
    assert((s + p).take(s.len() as int) =~= s);
}

} // verus!
