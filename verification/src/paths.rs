//! Paths as text, taken apart the way a Unix system takes them apart.
//!
//! Two paths are the same when their components are, however many separators
//! and `.` stand between them.

use vstd::prelude::*;
use crate::split;
use vstd::slice::slice_subrange;
use crate::split::{join_pieces, split_any};
use crate::text;
use crate::text::{chars_of, push_chars, reads, same, string_of};

verus! {

/// One component of a path.
pub enum Comp {
    Root,
    Cur,
    Up,
    Name(Seq<char>),
}

/// What a piece between separators stands for. An empty piece and a `.` stand
/// for nothing.
pub open spec fn comp_of(piece: Seq<char>) -> Option<Comp> {
    if piece.len() == 0 || piece == "."@ {
        None
    } else if piece == ".."@ {
        Some(Comp::Up)
    } else {
        Some(Comp::Name(piece))
    }
}

/// The components that the pieces stand for.
pub open spec fn comps_of(pieces: Seq<Seq<char>>) -> Seq<Comp>
    decreases pieces.len(),
{
    if pieces.len() == 0 {
        seq![]
    } else {
        match comp_of(pieces[0]) {
            Some(c) => seq![c] + comps_of(pieces.drop_first()),
            None => comps_of(pieces.drop_first()),
        }
    }
}

pub open spec fn is_rooted(s: Seq<char>) -> bool {
    s.len() > 0 && s[0] == '/'
}

/// The components of a path. A `.` counts only where a path begins with it.
pub open spec fn comps(s: Seq<char>) -> Seq<Comp> {
    let pieces = split::split(s, split::Cut::Any("/"@));
    let lead = if is_rooted(s) {
        seq![Comp::Root]
    } else if pieces[0] == "."@ {
        seq![Comp::Cur]
    } else {
        seq![]
    };
    lead + comps_of(pieces)
}

/// Whether every component of `base`, in order, is one that `path` begins with.
pub open spec fn under(path: Seq<char>, base: Seq<char>) -> bool {
    comps(base).is_prefix_of(comps(path))
}

/// `other` seen from `base`: itself where it is rooted, and below `base` where
/// it is not.
pub open spec fn joined(base: Seq<char>, other: Seq<char>) -> Seq<char> {
    if is_rooted(other) {
        other
    } else if base.len() == 0 || base.last() == '/' {
        base + other
    } else {
        base + "/"@ + other
    }
}

/// The pieces that are left once `n` of them that stand for something were
/// taken, from the next one that does.
pub open spec fn pieces_after(pieces: Seq<Seq<char>>, n: nat) -> Seq<Seq<char>>
    decreases pieces.len(),
{
    if pieces.len() == 0 {
        seq![]
    } else if comp_of(pieces[0]) is None {
        pieces_after(pieces.drop_first(), n)
    } else if n == 0 {
        pieces
    } else {
        pieces_after(pieces.drop_first(), (n - 1) as nat)
    }
}

/// The pieces up to the last one that stands for something.
pub open spec fn without_tail(pieces: Seq<Seq<char>>) -> Seq<Seq<char>>
    decreases pieces.len(),
{
    if pieces.len() == 0 {
        seq![]
    } else if comp_of(pieces.last()) is None {
        without_tail(pieces.drop_last())
    } else {
        pieces
    }
}

/// What is left of `path` below `base`, as it is written there. Below the empty
/// path that is the path itself.
pub open spec fn below(path: Seq<char>, base: Seq<char>) -> Option<Seq<char>> {
    if !under(path, base) {
        None
    } else if base.len() == 0 {
        Some(path)
    } else {
        let at = split::Cut::Any("/"@);
        let n = comps_of(split::split(base, at)).len();
        Some(split::join(without_tail(pieces_after(split::split(path, at), n)), "/"@))
    }
}

/// The last component, where it is a name.
pub open spec fn last_name(s: Seq<char>) -> Option<Seq<char>> {
    let c = comps(s);
    if c.len() == 0 {
        None
    } else {
        match c.last() {
            Comp::Name(n) => Some(n),
            _ => None,
        }
    }
}

/// One component of a path.
#[derive(Debug, Clone, PartialEq, Eq)]
pub enum Part {
    Root,
    Cur,
    Up,
    Name(String),
}

impl View for Part {
    type V = Comp;

    open spec fn view(&self) -> Comp {
        match self {
            Part::Root => Comp::Root,
            Part::Cur => Comp::Cur,
            Part::Up => Comp::Up,
            Part::Name(n) => Comp::Name(n@),
        }
    }
}

/// The components that parts stand for.
pub open spec fn all_comps(v: Seq<Part>) -> Seq<Comp> {
    v.map_values(|p: Part| p@)
}

fn same_part(a: &Part, b: &Part) -> (r: bool)
    ensures
        r == (a@ == b@),
{
    match (a, b) {
        (Part::Root, Part::Root) => true,
        (Part::Cur, Part::Cur) => true,
        (Part::Up, Part::Up) => true,
        (Part::Name(x), Part::Name(y)) => same(x.as_str(), y.as_str()),
        _ => false,
    }
}

/// The components of a path.
pub fn components(s: &str) -> (v: Vec<Part>)
    ensures
        all_comps(v@) == comps(s@),
{
    let chars = chars_of(s);
    let pieces = split_any(chars.as_slice(), "/");
    let ghost p = text::pieces(pieces@);
    proof {
        lemma_split_has_a_piece(s@);
    }
    assert(p[0] == pieces@[0]@);
    let mut v: Vec<Part> = Vec::new();
    if chars.len() > 0 && chars[0] == '/' {
        v.push(Part::Root);
    } else if reads(pieces[0], ".") {
        v.push(Part::Cur);
    }
    let ghost lead = all_comps(v@);
    let mut i: usize = 0;
    assert(p.skip(0) =~= p);
    while i < pieces.len()
        invariant
            i <= pieces.len(),
            p == text::pieces(pieces@),
            all_comps(v@) + comps_of(p.skip(i as int)) == lead + comps_of(p),
        decreases pieces.len() - i,
    {
        let piece = pieces[i];
        let ghost before = v@;
        assert(p.skip(i as int)[0] == piece@);
        assert(p.skip(i as int).drop_first() =~= p.skip(i + 1));
        if piece.len() > 0 && !reads(piece, ".") {
            if reads(piece, "..") {
                v.push(Part::Up);
            } else {
                v.push(Part::Name(string_of(piece)));
            }
            assert(all_comps(v@) =~= all_comps(before).push(comp_of(piece@)->0));
            assert(all_comps(v@) + comps_of(p.skip(i + 1)) =~= all_comps(before) + comps_of(p.skip(i as int)));
        }
        i = i + 1;
    }
    assert(p.skip(i as int) =~= seq![]);
    assert(all_comps(v@) + comps_of(p.skip(i as int)) =~= all_comps(v@));
    assert(lead =~= if is_rooted(s@) {
        seq![Comp::Root]
    } else if p[0] == "."@ {
        seq![Comp::Cur]
    } else {
        seq![]
    });
    v
}

proof fn lemma_split_has_a_piece(s: Seq<char>)
    ensures
        split::split(s, split::Cut::Any("/"@)).len() > 0,
{
}

fn begins_with_parts(path: &[Part], base: &[Part]) -> (r: bool)
    ensures
        r == all_comps(base@).is_prefix_of(all_comps(path@)),
{
    if base.len() > path.len() {
        return false;
    }
    let ghost b = all_comps(base@);
    let ghost p = all_comps(path@);
    let mut i: usize = 0;
    while i < base.len()
        invariant
            i <= base.len(),
            base.len() <= path.len(),
            b == all_comps(base@),
            p == all_comps(path@),
            forall|j: int| 0 <= j < i ==> b[j] == p[j],
        decreases base.len() - i,
    {
        if !same_part(&path[i], &base[i]) {
            assert(b[i as int] != p[i as int]);
            assert(b.is_prefix_of(p) ==> b[i as int] == p.subrange(0, b.len() as int)[i as int]);
            return false;
        }
        i = i + 1;
    }
    assert(b =~= p.subrange(0, b.len() as int));
    true
}

fn stands_for_something(piece: &[char]) -> (r: bool)
    ensures
        r == comp_of(piece@) is Some,
{
    piece.len() > 0 && !reads(piece, ".")
}

fn count_solid(pieces: &[&[char]]) -> (n: usize)
    ensures
        n == comps_of(text::pieces(pieces@)).len(),
{
    let ghost all = text::pieces(pieces@);
    let mut n: usize = 0;
    let mut i: usize = 0;
    assert(all.skip(0) =~= all);
    while i < pieces.len()
        invariant
            n <= i <= pieces.len(),
            all == text::pieces(pieces@),
            n + comps_of(all.skip(i as int)).len() == comps_of(all).len(),
        decreases pieces.len() - i,
    {
        assert(all.skip(i as int)[0] == pieces@[i as int]@);
        assert(all.skip(i as int).drop_first() =~= all.skip(i + 1));
        if stands_for_something(pieces[i]) {
            n = n + 1;
        }
        i = i + 1;
    }
    n
}

/// A path.
#[derive(Debug)]
pub struct FilePath {
    pub text: String,
}

impl View for FilePath {
    type V = Seq<char>;

    open spec fn view(&self) -> Seq<char> {
        self.text@
    }
}

impl Clone for FilePath {
    fn clone(&self) -> (p: Self)
        ensures
            p@ == self@,
    {
        FilePath { text: self.text.as_str().to_owned() }
    }
}

impl PartialEq for FilePath {
    fn eq(&self, other: &Self) -> (r: bool) {
        let a = components(self.text.as_str());
        let b = components(other.text.as_str());
        let r = a.len() == b.len() && begins_with_parts(a.as_slice(), b.as_slice());
        proof {
            let x = all_comps(a@);
            let y = all_comps(b@);
            assert(x.len() == a@.len() && y.len() == b@.len());
            if x.len() == y.len() {
                assert(x.subrange(0, y.len() as int) =~= x);
            }
        }
        r
    }
}

impl vstd::std_specs::cmp::PartialEqSpecImpl for FilePath {
    open spec fn obeys_eq_spec() -> bool {
        true
    }

    open spec fn eq_spec(&self, other: &Self) -> bool {
        comps(self@) == comps(other@)
    }
}

impl Eq for FilePath {

}

impl FilePath {
    pub fn new(text: &str) -> (p: Self)
        ensures
            p@ == text@,
    {
        FilePath { text: text.to_owned() }
    }

    pub fn as_str(&self) -> (s: &str)
        ensures
            s@ == self@,
    {
        self.text.as_str()
    }

    /// Whether every component of `base`, in order, is one that this path
    /// begins with.
    pub fn starts_with(&self, base: &FilePath) -> (r: bool)
        ensures
            r == under(self@, base@),
    {
        let a = components(self.text.as_str());
        let b = components(base.text.as_str());
        begins_with_parts(a.as_slice(), b.as_slice())
    }

    /// What is left of this path below `base`, as it is written here.
    pub fn strip_prefix(&self, base: &FilePath) -> (r: Option<FilePath>)
        ensures
            r is Some == below(self@, base@) is Some,
            r matches Some(p) ==> Some(p@) == below(self@, base@),
    {
        if !self.starts_with(base) {
            return None;
        }
        let base_chars = chars_of(base.text.as_str());
        if base_chars.len() == 0 {
            return Some(self.clone());
        }
        let base_pieces = split_any(base_chars.as_slice(), "/");
        let taken: usize = count_solid(base_pieces.as_slice());
        let chars = chars_of(self.text.as_str());
        let pieces = split_any(chars.as_slice(), "/");
        let ghost all = text::pieces(pieces@);
        let ghost n = comps_of(split::split(base@, split::Cut::Any("/"@))).len();
        let mut from: usize = 0;
        let mut left: usize = taken;
        assert(all.skip(0) =~= all);
        while from < pieces.len() && (left > 0 || !stands_for_something(pieces[from]))
            invariant
                from <= pieces.len(),
                all == text::pieces(pieces@),
                pieces_after(all.skip(from as int), left as nat) == pieces_after(all, n),
            decreases pieces.len() - from,
        {
            assert(all.skip(from as int)[0] == pieces@[from as int]@);
            assert(all.skip(from as int).drop_first() =~= all.skip(from + 1));
            if stands_for_something(pieces[from]) {
                left = left - 1;
            }
            from = from + 1;
        }
        proof {
            if from < pieces@.len() {
                assert(all.skip(from as int)[0] == pieces@[from as int]@);
            }
            assert(pieces_after(all, n) =~= all.skip(from as int));
        }
        let mut to: usize = pieces.len();
        assert(all.subrange(from as int, to as int) =~= all.skip(from as int));
        while to > from && !stands_for_something(pieces[to - 1])
            invariant
                from <= to <= pieces.len(),
                all == text::pieces(pieces@),
                without_tail(all.subrange(from as int, to as int)) == without_tail(all.skip(from as int)),
            decreases to,
        {
            assert(all.subrange(from as int, to as int).last() == pieces@[to - 1]@);
            assert(all.subrange(from as int, to as int).drop_last() =~= all.subrange(from as int, to - 1));
            to = to - 1;
        }
        proof {
            if from < to {
                assert(all.subrange(from as int, to as int).last() == pieces@[to - 1]@);
            }
            assert(without_tail(all.skip(from as int)) =~= all.subrange(from as int, to as int));
        }
        let kept = slice_subrange(pieces.as_slice(), from, to);
        assert(text::pieces(kept@) =~= all.subrange(from as int, to as int));
        Some(FilePath { text: join_pieces(kept, "/") })
    }

    /// `other` seen from this path.
    pub fn join(&self, other: &str) -> (p: FilePath)
        ensures
            p@ == joined(self@, other@),
    {
        let below = chars_of(other);
        if below.len() > 0 && below[0] == '/' {
            return FilePath::new(other);
        }
        let mut s = self.text.as_str().to_owned();
        let base = chars_of(self.text.as_str());
        if base.len() > 0 && base[base.len() - 1] != '/' {
            s.append("/");
        }
        push_chars(&mut s, below.as_slice());
        FilePath { text: s }
    }

    /// The last component, where it is a name.
    pub fn file_name(&self) -> (n: Option<String>)
        ensures
            n is Some == last_name(self@) is Some,
            n matches Some(s) ==> Some(s@) == last_name(self@),
    {
        let parts = components(self.text.as_str());
        assert(all_comps(parts@).len() == parts@.len());
        if parts.len() == 0 {
            return None;
        }
        assert(all_comps(parts@).last() == parts@[parts@.len() - 1]@);
        match &parts[parts.len() - 1] {
            Part::Name(n) => Some(n.as_str().to_owned()),
            _ => None,
        }
    }
}

// -------------------------------------------------------------------------- laws

proof fn lemma_comps_of_add(a: Seq<Seq<char>>, b: Seq<Seq<char>>)
    ensures
        comps_of(a + b) == comps_of(a) + comps_of(b),
    decreases a.len(),
{
    if a.len() == 0 {
        assert(a + b =~= b);
        assert(comps_of(a) + comps_of(b) =~= comps_of(b));
    } else {
        assert((a + b)[0] == a[0]);
        assert((a + b).drop_first() =~= a.drop_first() + b);
        lemma_comps_of_add(a.drop_first(), b);
        assert(comps_of(a + b) =~= comps_of(a) + comps_of(b));
    }
}

proof fn lemma_slash()
    ensures
        "/"@ == seq!['/'],
        split::cuts(split::Cut::Any("/"@), '/'),
        forall|c: char| #[trigger] split::cuts(split::Cut::Any("/"@), c) ==> c == '/',
{
    reveal_strlit("/");
    assert("/"@ =~= seq!['/']);
    assert("/"@[0] == '/');
    assert forall|c: char| #[trigger] split::cuts(split::Cut::Any("/"@), c) implies c == '/' by {
        let i = choose|i: int| 0 <= i < "/"@.len() && "/"@[i] == c;
    }
}

/// A path below another has that one's components, and then its own.
pub proof fn law_a_path_below_another_continues_it(base: Seq<char>, rel: Seq<char>)
    requires
        base.len() > 0,
    ensures
        comps(base + "/"@ + rel) == comps(base) + comps_of(split::split(rel, split::Cut::Any("/"@))),
        under(base + "/"@ + rel, base),
{
    let at = split::Cut::Any("/"@);
    let path = base + "/"@ + rel;
    lemma_slash();
    split::law_a_cut_parts_the_pieces(base, '/', rel, at);
    assert(path =~= base + seq!['/'] + rel);
    lemma_split_has_a_piece(base);
    lemma_comps_of_add(split::split(base, at), split::split(rel, at));
    assert(path[0] == base[0]);
    assert(split::split(path, at)[0] == split::split(base, at)[0]);
    assert(comps(path) =~= comps(base) + comps_of(split::split(rel, at)));
    assert(comps(base) =~= comps(path).subrange(0, comps(base).len() as int));
}

/// One path is below another exactly where it begins with all of its components:
/// names are compared whole, and each path is below itself.
pub proof fn law_below_is_by_whole_names(path: Seq<char>, base: Seq<char>)
    ensures
        under(path, path),
        under(path, base) <==> (comps(base).len() <= comps(path).len() && forall|i: int|
            0 <= i < comps(base).len() ==> #[trigger] comps(base)[i] == comps(path)[i]),
{
    assert(comps(path) =~= comps(path).subrange(0, comps(path).len() as int));
    if comps(base).len() <= comps(path).len() && forall|i: int|
        0 <= i < comps(base).len() ==> #[trigger] comps(base)[i] == comps(path)[i] {
        assert(comps(base) =~= comps(path).subrange(0, comps(base).len() as int));
    }
    if under(path, base) {
        assert(comps(base) =~= comps(path).subrange(0, comps(base).len() as int));
        assert forall|i: int| 0 <= i < comps(base).len() implies #[trigger] comps(base)[i] == comps(path)[i] by {
            assert(comps(path).subrange(0, comps(base).len() as int)[i] == comps(path)[i]);
        }
    }
}

/// What is below what is below is below.
pub proof fn law_below_is_transitive(a: Seq<char>, b: Seq<char>, c: Seq<char>)
    requires
        under(a, b),
        under(b, c),
    ensures
        under(a, c),
{
    law_below_is_by_whole_names(a, b);
    law_below_is_by_whole_names(b, c);
    law_below_is_by_whole_names(a, c);
    assert forall|i: int| 0 <= i < comps(c).len() implies #[trigger] comps(c)[i] == comps(a)[i] by {
        assert(comps(c)[i] == comps(b)[i]);
    }
}

/// What a piece of a path stands for: two dots for the folder above, one dot and
/// nothing for nothing, and anything else for itself.
pub proof fn law_a_piece_stands_for_itself(piece: Seq<char>)
    ensures
        comp_of(piece) == (if piece.len() == 0 || piece == seq!['.'] {
            None
        } else if piece == seq!['.', '.'] {
            Some(Comp::Up)
        } else {
            Some(Comp::Name(piece))
        }),
{
    reveal_strlit(".");
    reveal_strlit("..");
    assert("."@ =~= seq!['.']);
    assert(".."@ =~= seq!['.', '.']);
}

/// A name without slashes, and that is no dots, is a path of one component.
pub proof fn law_a_name_is_a_path(name: Seq<char>)
    requires
        name.len() > 0,
        !name.contains('/'),
        name != seq!['.'],
        name != seq!['.', '.'],
    ensures
        comps(name) == seq![Comp::Name(name)],
        last_name(name) == Some(name),
{
    let at = split::Cut::Any("/"@);
    lemma_slash();
    assert forall|j: int| 0 <= j < name.len() implies !split::cuts(at, #[trigger] name[j]) by {
        if split::cuts(at, name[j]) {
            assert(name.contains('/'));
        }
    }
    split::law_what_is_not_cut_is_one_piece(name, at);
    law_a_piece_stands_for_itself(name);
    assert(!is_rooted(name)) by {
        if is_rooted(name) {
            assert(name.contains('/'));
        }
    }
    reveal_strlit(".");
    assert("."@ =~= seq!['.']);
    let v = seq![name];
    assert(v.drop_first() =~= seq![]);
    assert(comps_of(v.drop_first()) =~= seq![]);
    assert(comps_of(v) =~= seq![Comp::Name(name)]);
    assert(comps(name) =~= seq![Comp::Name(name)]);
}

/// A path that begins with a slash begins at the top, and no other does.
pub proof fn law_a_rooted_path_begins_at_the_top(s: Seq<char>)
    ensures
        comps(s).len() > 0 && comps(s)[0] is Root <==> s.len() > 0 && s[0] == '/',
{
    let pieces = split::split(s, split::Cut::Any("/"@));
    lemma_no_root(pieces);
    if comps(s).len() > 0 && comps(s)[0] is Root && !is_rooted(s) {
        if pieces[0] == "."@ {
            assert(comps(s)[0] == Comp::Cur);
        } else {
            assert(comps(s) =~= comps_of(pieces));
        }
    }
}

proof fn lemma_no_root(pieces: Seq<Seq<char>>)
    ensures
        forall|i: int| 0 <= i < comps_of(pieces).len() ==> !((#[trigger] comps_of(pieces)[i]) is Root),
    decreases pieces.len(),
{
    if pieces.len() > 0 {
        let rest = pieces.drop_first();
        lemma_no_root(rest);
        assert forall|i: int| 0 <= i < comps_of(pieces).len() implies !((#[trigger] comps_of(pieces)[i]) is Root) by {
            if let Some(c) = comp_of(pieces[0]) {
                if i > 0 {
                    assert(comps_of(pieces)[i] == comps_of(rest)[i - 1]);
                }
            }
        }
    }
}

/// A relative path is taken from where it is said to be, and an absolute one from
/// the top, wherever that is.
pub proof fn law_a_path_is_taken_from_its_base(base: Seq<char>, other: Seq<char>)
    ensures
        is_rooted(other) ==> joined(base, other) == other,
        !is_rooted(other) && base.len() > 0 && base.last() != '/' ==> joined(base, other) == base + "/"@ + other,
        !is_rooted(other) && base.len() > 0 && base.last() == '/' ==> joined(base, other) == base + other,
        base.len() == 0 ==> joined(base, other) == other,
{
    if base.len() == 0 {
        assert(base + other =~= other);
    }
}

/// Whether a list of pieces is one of plain names.
pub open spec fn are_names(names: Seq<Seq<char>>) -> bool {
    forall|i: int|
        0 <= i < names.len() ==> (#[trigger] names[i]).len() > 0 && !names[i].contains('/') && names[i] != seq!['.']
            && names[i] != seq!['.', '.']
}

proof fn lemma_split_of_joined(names: Seq<Seq<char>>)
    requires
        names.len() > 0,
        are_names(names),
    ensures
        split::split(split::join(names, "/"@), split::Cut::Any("/"@)) == names,
    decreases names.len(),
{
    let at = split::Cut::Any("/"@);
    lemma_slash();
    let n = names.last();
    assert(names[names.len() - 1] == n);
    assert forall|j: int| 0 <= j < n.len() implies !split::cuts(at, #[trigger] n[j]) by {
        if split::cuts(at, n[j]) {
            assert(n.contains('/'));
        }
    }
    split::law_what_is_not_cut_is_one_piece(n, at);
    if names.len() == 1 {
        assert(names =~= seq![n]);
    } else {
        let head = names.drop_last();
        assert forall|i: int| 0 <= i < head.len() implies (#[trigger] head[i]).len() > 0 && !head[i].contains('/')
            && head[i] != seq!['.'] && head[i] != seq!['.', '.'] by {
            assert(head[i] == names[i]);
        }
        lemma_split_of_joined(head);
        let before = split::join(head, "/"@);
        split::law_a_cut_parts_the_pieces(before, '/', n, at);
        assert(split::join(names, "/"@) =~= before + seq!['/'] + n);
        assert(head + seq![n] =~= names);
    }
}

proof fn lemma_pieces_after(a: Seq<Seq<char>>, names: Seq<Seq<char>>)
    requires
        are_names(names),
    ensures
        pieces_after(a + names, comps_of(a).len()) == names,
    decreases a.len(),
{
    if a.len() == 0 {
        assert(a + names =~= names);
        if names.len() > 0 {
            assert(names[0].len() > 0);
            law_a_piece_stands_for_itself(names[0]);
        }
    } else {
        assert((a + names)[0] == a[0]);
        assert((a + names).drop_first() =~= a.drop_first() + names);
        lemma_pieces_after(a.drop_first(), names);
        if comp_of(a[0]) is Some {
            assert(comps_of(a).len() == 1 + comps_of(a.drop_first()).len());
        }
    }
}

/// The name of a file below a folder, seen from it, is what follows the folder.
pub proof fn law_what_follows_the_folder_is_the_name(base: Seq<char>, names: Seq<Seq<char>>)
    requires
        base.len() > 0,
        names.len() > 0,
        are_names(names),
    ensures
        below(base + "/"@ + split::join(names, "/"@), base) == Some(split::join(names, "/"@)),
{
    let at = split::Cut::Any("/"@);
    let rel = split::join(names, "/"@);
    let path = base + "/"@ + rel;
    lemma_slash();
    law_a_path_below_another_continues_it(base, rel);
    lemma_split_of_joined(names);
    split::law_a_cut_parts_the_pieces(base, '/', rel, at);
    assert(path =~= base + seq!['/'] + rel);
    lemma_pieces_after(split::split(base, at), names);
    assert(names[names.len() - 1].len() > 0);
    law_a_piece_stands_for_itself(names.last());
    assert(without_tail(names) == names);
}

/// A file that is not below a folder has no name from there.
pub proof fn law_what_is_elsewhere_has_no_name(path: Seq<char>, base: Seq<char>)
    ensures
        below(path, base) is Some <==> under(path, base),
{
}

} // verus!
