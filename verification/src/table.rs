//! A map from names to values, kept in the order of the names.
//!
//! The order matters: documents list their results in it, reports list nodes in
//! it, and a run walks its documents in it.

use vstd::prelude::*;
use crate::text;
use crate::text::{comes_before, same};

verus! {

/// The value kept under `key`.
pub open spec fn lookup<V>(s: Seq<(Seq<char>, V)>, key: Seq<char>) -> Option<V>
    decreases s.len(),
{
    if s.len() == 0 {
        None
    } else if s[0].0 == key {
        Some(s[0].1)
    } else {
        lookup(s.drop_first(), key)
    }
}

/// The entries with `value` kept under `key`: in the place of what was kept
/// there, or before the first greater name.
pub open spec fn put<V>(s: Seq<(Seq<char>, V)>, key: Seq<char>, value: V) -> Seq<(Seq<char>, V)>
    decreases s.len(),
{
    if s.len() == 0 {
        seq![(key, value)]
    } else if s[0].0 == key {
        seq![(key, value)] + s.drop_first()
    } else if text::before(key, s[0].0) {
        seq![(key, value)] + s
    } else {
        seq![s[0]] + put(s.drop_first(), key, value)
    }
}

/// The entries without the one kept under `key`.
pub open spec fn without<V>(s: Seq<(Seq<char>, V)>, key: Seq<char>) -> Seq<(Seq<char>, V)>
    decreases s.len(),
{
    if s.len() == 0 {
        s
    } else if s[0].0 == key {
        s.drop_first()
    } else {
        seq![s[0]] + without(s.drop_first(), key)
    }
}

/// Whether the names increase, so that none occurs twice.
pub open spec fn ordered<V>(s: Seq<(Seq<char>, V)>) -> bool {
    forall|i: int, j: int| 0 <= i < j < s.len() ==> text::before((#[trigger] s[i]).0, (#[trigger] s[j]).0)
}

/// The entries of a table of strings, as texts.
pub open spec fn as_texts(s: Seq<(Seq<char>, String)>) -> Seq<(Seq<char>, Seq<char>)> {
    s.map_values(|e: (Seq<char>, String)| (e.0, e.1@))
}

#[derive(Debug, Clone, PartialEq, Eq)]
pub struct Table<V> {
    entries: Vec<(String, V)>,
}

impl<V> View for Table<V> {
    type V = Seq<(Seq<char>, V)>;

    closed spec fn view(&self) -> Seq<(Seq<char>, V)> {
        self.entries@.map_values(|e: (String, V)| (e.0@, e.1))
    }
}

impl<V> Default for Table<V> {
    fn default() -> (t: Self)
        ensures
            t@ == Seq::<(Seq<char>, V)>::empty(),
    {
        Table::new()
    }
}

impl<V> Table<V> {
    /// Whether the names are in order and none occurs twice.
    pub open spec fn wf(self) -> bool {
        ordered(self@)
    }

    pub fn new() -> (t: Self)
        ensures
            t@ == Seq::<(Seq<char>, V)>::empty(),
            t.wf(),
    {
        let t = Table { entries: Vec::new() };
        assert(t@ =~= Seq::<(Seq<char>, V)>::empty());
        t
    }

    pub fn len(&self) -> (n: usize)
        ensures
            n == self@.len(),
    {
        self.entries.len()
    }

    pub fn is_empty(&self) -> (r: bool)
        ensures
            r == (self@.len() == 0),
    {
        self.entries.len() == 0
    }

    /// The name in place `i`.
    pub fn key_at(&self, i: usize) -> (k: &String)
        requires
            i < self@.len(),
        ensures
            k@ == self@[i as int].0,
    {
        &self.entries[i].0
    }

    /// The value in place `i`.
    pub fn value_at(&self, i: usize) -> (v: &V)
        requires
            i < self@.len(),
        ensures
            *v == self@[i as int].1,
    {
        &self.entries[i].1
    }

    pub fn get(&self, key: &str) -> (r: Option<&V>)
        ensures
            r is Some == lookup(self@, key@) is Some,
            r matches Some(v) ==> Some(*v) == lookup(self@, key@),
    {
        let mut i: usize = 0;
        assert(self@.skip(0) =~= self@);
        while i < self.entries.len()
            invariant
                i <= self.entries.len(),
                self.entries.len() == self@.len(),
                lookup(self@.skip(i as int), key@) == lookup(self@, key@),
            decreases self.entries.len() - i,
        {
            assert(self@.skip(i as int)[0] == self@[i as int]);
            if same(self.entries[i].0.as_str(), key) {
                return Some(&self.entries[i].1);
            }
            assert(self@.skip(i as int).drop_first() =~= self@.skip(i + 1));
            i = i + 1;
        }
        None
    }

    pub fn contains_key(&self, key: &str) -> (r: bool)
        ensures
            r == lookup(self@, key@) is Some,
    {
        self.get(key).is_some()
    }

    pub fn insert(&mut self, key: String, value: V)
        ensures
            final(self)@ == put(old(self)@, key@, value),
            old(self).wf() ==> final(self).wf(),
    {
        let ghost start = self@;
        let mut i: usize = 0;
        assert(start.skip(0) =~= start);
        assert(start.take(0) + put(start.skip(0), key@, value) =~= put(start, key@, value));
        while i < self.entries.len() && !same(self.entries[i].0.as_str(), key.as_str()) && !comes_before(
            key.as_str(),
            self.entries[i].0.as_str(),
        )
            invariant
                i <= self.entries.len(),
                self.entries.len() == start.len(),
                self@ == start,
                start.take(i as int) + put(start.skip(i as int), key@, value) == put(start, key@, value),
            decreases self.entries.len() - i,
        {
            assert(start.skip(i as int)[0] == start[i as int]);
            assert(start.skip(i as int).drop_first() =~= start.skip(i + 1));
            assert(start.take(i as int) + (seq![start[i as int]] + put(
                start.skip(i + 1),
                key@,
                value,
            )) =~= start.take(i + 1) + put(start.skip(i + 1), key@, value));
            i = i + 1;
        }
        proof {
            if ordered(start) {
                lemma_put_ordered(start, key@, value);
            }
        }
        if i < self.entries.len() {
            assert(start.skip(i as int)[0] == start[i as int]);
            if same(self.entries[i].0.as_str(), key.as_str()) {
                let ghost k = key@;
                self.entries.set(i, (key, value));
                assert(self@ =~= start.take(i as int) + (seq![(k, value)] + start.skip(i as int).drop_first()));
                return;
            }
        }
        let ghost k = key@;
        self.entries.insert(i, (key, value));
        assert(self@ =~= start.take(i as int) + (seq![(k, value)] + start.skip(i as int)));
        if i == self.entries.len() - 1 {
            assert(start.skip(i as int) =~= seq![]);
            assert(seq![(k, value)] + start.skip(i as int) =~= seq![(k, value)]);
        }
    }

    pub fn remove(&mut self, key: &str) -> (r: Option<V>)
        ensures
            final(self)@ == without(old(self)@, key@),
            r == lookup(old(self)@, key@),
            old(self).wf() ==> final(self).wf(),
    {
        let ghost start = self@;
        let mut i: usize = 0;
        assert(start.skip(0) =~= start);
        assert(start.take(0) + without(start.skip(0), key@) =~= without(start, key@));
        while i < self.entries.len() && !same(self.entries[i].0.as_str(), key)
            invariant
                i <= self.entries.len(),
                self.entries.len() == start.len(),
                self@ == start,
                start.take(i as int) + without(start.skip(i as int), key@) == without(start, key@),
                lookup(start.skip(i as int), key@) == lookup(start, key@),
            decreases self.entries.len() - i,
        {
            assert(start.skip(i as int)[0] == start[i as int]);
            assert(start.skip(i as int).drop_first() =~= start.skip(i + 1));
            assert(start.take(i as int) + (seq![start[i as int]] + without(start.skip(i + 1), key@))
                =~= start.take(i + 1) + without(start.skip(i + 1), key@));
            i = i + 1;
        }
        proof {
            if ordered(start) {
                lemma_without_ordered(start, key@);
            }
        }
        if i < self.entries.len() {
            assert(start.skip(i as int)[0] == start[i as int]);
            let e = self.entries.remove(i);
            assert(self@ =~= start.take(i as int) + start.skip(i as int).drop_first());
            Some(e.1)
        } else {
            assert(start.skip(i as int) =~= seq![]);
            assert(start.take(i as int) + without(start.skip(i as int), key@) =~= start);
            None
        }
    }
}

// ----------------------------------------------------------------------- laws

/// What was put under a name is found under it.
pub proof fn lemma_lookup_put_same<V>(s: Seq<(Seq<char>, V)>, key: Seq<char>, value: V)
    ensures
        lookup(put(s, key, value), key) == Some(value),
    decreases s.len(),
{
    if s.len() > 0 && s[0].0 != key && !text::before(key, s[0].0) {
        lemma_lookup_put_same(s.drop_first(), key, value);
        let t = put(s.drop_first(), key, value);
        assert((seq![s[0]] + t).drop_first() =~= t);
    }
}

/// Putting a value under one name leaves the others alone.
pub proof fn lemma_lookup_put_other<V>(s: Seq<(Seq<char>, V)>, key: Seq<char>, value: V, other: Seq<char>)
    requires
        other != key,
    ensures
        lookup(put(s, key, value), other) == lookup(s, other),
    decreases s.len(),
{
    let one = seq![(key, value)];
    if s.len() == 0 {
        assert(one.drop_first() =~= s);
    } else if s[0].0 == key {
        assert((one + s.drop_first()).drop_first() =~= s.drop_first());
    } else if text::before(key, s[0].0) {
        assert((one + s).drop_first() =~= s);
    } else {
        lemma_lookup_put_other(s.drop_first(), key, value, other);
        let t = put(s.drop_first(), key, value);
        assert((seq![s[0]] + t).drop_first() =~= t);
    }
}

/// Every name of a table with a new entry was there before or is the new one.
proof fn lemma_put_names<V>(s: Seq<(Seq<char>, V)>, key: Seq<char>, value: V)
    ensures
        forall|i: int|
            0 <= i < put(s, key, value).len() ==> (#[trigger] put(s, key, value)[i]).0 == key || exists|j: int|
                0 <= j < s.len() && s[j] == put(s, key, value)[i],
    decreases s.len(),
{
    let p = put(s, key, value);
    assert forall|i: int| 0 <= i < p.len() implies (#[trigger] p[i]).0 == key || exists|j: int|
        0 <= j < s.len() && s[j] == p[i] by {
        if s.len() == 0 {
        } else if s[0].0 == key {
            if i > 0 {
                assert(p[i] == s[i]);
            }
        } else if text::before(key, s[0].0) {
            if i > 0 {
                assert(p[i] == s[i - 1]);
            }
        } else {
            lemma_put_names(s.drop_first(), key, value);
            let t = put(s.drop_first(), key, value);
            if i == 0 {
                assert(p[0] == s[0]);
            } else {
                assert(p[i] == t[i - 1]);
                if t[i - 1].0 != key {
                    let j = choose|j: int| 0 <= j < s.drop_first().len() && s.drop_first()[j] == t[i - 1];
                    assert(s[j + 1] == p[i]);
                }
            }
        }
    }
}

/// A new entry keeps the names in order.
pub proof fn lemma_put_ordered<V>(s: Seq<(Seq<char>, V)>, key: Seq<char>, value: V)
    requires
        ordered(s),
    ensures
        ordered(put(s, key, value)),
    decreases s.len(),
{
    let p = put(s, key, value);
    if s.len() == 0 {
    } else if s[0].0 == key {
        assert forall|i: int, j: int| 0 <= i < j < p.len() implies text::before(
            (#[trigger] p[i]).0,
            (#[trigger] p[j]).0,
        ) by {
            assert(p[i].0 == s[i].0 && p[j] == s[j]);
        }
    } else if text::before(key, s[0].0) {
        assert forall|i: int, j: int| 0 <= i < j < p.len() implies text::before(
            (#[trigger] p[i]).0,
            (#[trigger] p[j]).0,
        ) by {
            assert(p[j] == s[j - 1]);
            if i == 0 {
                if j > 1 {
                    text::lemma_before_transitive(key, s[0].0, s[j - 1].0);
                }
            } else {
                assert(p[i] == s[i - 1]);
            }
        }
    } else {
        let rest = s.drop_first();
        assert forall|i: int, j: int| 0 <= i < j < rest.len() implies text::before(
            (#[trigger] rest[i]).0,
            (#[trigger] rest[j]).0,
        ) by {
            assert(rest[i] == s[i + 1] && rest[j] == s[j + 1]);
        }
        lemma_put_ordered(rest, key, value);
        lemma_put_names(rest, key, value);
        text::lemma_before_total(key, s[0].0);
        let t = put(rest, key, value);
        assert forall|i: int, j: int| 0 <= i < j < p.len() implies text::before(
            (#[trigger] p[i]).0,
            (#[trigger] p[j]).0,
        ) by {
            assert(p[j] == t[j - 1]);
            if i == 0 {
                if t[j - 1].0 != key {
                    let m = choose|m: int| 0 <= m < rest.len() && rest[m] == t[j - 1];
                    assert(rest[m] == s[m + 1]);
                }
            } else {
                assert(p[i] == t[i - 1]);
            }
        }
    }
}

/// Every entry of a table without one of its names was there before, no earlier.
proof fn lemma_without_entry<V>(s: Seq<(Seq<char>, V)>, key: Seq<char>, i: int) -> (j: int)
    requires
        0 <= i < without(s, key).len(),
    ensures
        i <= j < s.len(),
        s[j] == without(s, key)[i],
    decreases s.len(),
{
    if s[0].0 == key {
        i + 1
    } else if i == 0 {
        0
    } else {
        lemma_without_entry(s.drop_first(), key, i - 1) + 1
    }
}

/// Taking an entry out keeps the names in order.
pub proof fn lemma_without_ordered<V>(s: Seq<(Seq<char>, V)>, key: Seq<char>)
    requires
        ordered(s),
    ensures
        ordered(without(s, key)),
    decreases s.len(),
{
    if s.len() > 0 {
        let p = without(s, key);
        let rest = s.drop_first();
        assert forall|i: int, j: int| 0 <= i < j < rest.len() implies text::before(
            (#[trigger] rest[i]).0,
            (#[trigger] rest[j]).0,
        ) by {
            assert(rest[i] == s[i + 1] && rest[j] == s[j + 1]);
        }
        if s[0].0 != key {
            lemma_without_ordered(rest, key);
            let t = without(rest, key);
            assert forall|i: int, j: int| 0 <= i < j < p.len() implies text::before(
                (#[trigger] p[i]).0,
                (#[trigger] p[j]).0,
            ) by {
                assert(p[j] == t[j - 1]);
                if i == 0 {
                    let m = lemma_without_entry(rest, key, j - 1);
                    assert(rest[m] == s[m + 1]);
                } else {
                    assert(p[i] == t[i - 1]);
                }
            }
        }
    }
}

/// A name greater than all the others goes to the end.
pub proof fn lemma_put_last<V>(s: Seq<(Seq<char>, V)>, key: Seq<char>, value: V)
    requires
        forall|i: int| 0 <= i < s.len() ==> text::before((#[trigger] s[i]).0, key),
    ensures
        put(s, key, value) == s.push((key, value)),
    decreases s.len(),
{
    if s.len() == 0 {
        assert(seq![(key, value)] =~= s.push((key, value)));
    } else {
        text::lemma_before_irreflexive(key);
        assert(text::before(s[0].0, key));
        if text::before(key, s[0].0) {
            text::lemma_before_transitive(key, s[0].0, key);
        }
        let rest = s.drop_first();
        assert forall|i: int| 0 <= i < rest.len() implies text::before((#[trigger] rest[i]).0, key) by {
            assert(rest[i] == s[i + 1]);
        }
        lemma_put_last(rest, key, value);
        assert(seq![s[0]] + rest.push((key, value)) =~= s.push((key, value)));
    }
}

/// Reading a table of strings as texts commutes with looking up.
pub proof fn lemma_lookup_texts(s: Seq<(Seq<char>, String)>, key: Seq<char>)
    ensures
        lookup(as_texts(s), key) is Some == lookup(s, key) is Some,
        lookup(s, key) matches Some(v) ==> lookup(as_texts(s), key) == Some(v@),
    decreases s.len(),
{
    if s.len() > 0 && s[0].0 != key {
        lemma_lookup_texts(s.drop_first(), key);
        assert(as_texts(s).drop_first() =~= as_texts(s.drop_first()));
    }
}

/// Reading a table of strings as texts commutes with putting.
pub proof fn lemma_put_texts(s: Seq<(Seq<char>, String)>, key: Seq<char>, value: String)
    ensures
        as_texts(put(s, key, value)) == put(as_texts(s), key, value@),
    decreases s.len(),
{
    let one = seq![(key, value)];
    if s.len() == 0 {
        assert(as_texts(put(s, key, value)) =~= put(as_texts(s), key, value@));
    } else {
        assert(as_texts(s).drop_first() =~= as_texts(s.drop_first()));
        if s[0].0 != key && !text::before(key, s[0].0) {
            lemma_put_texts(s.drop_first(), key, value);
        }
        assert(as_texts(put(s, key, value)) =~= put(as_texts(s), key, value@));
    }
}

/// What stands under a name is what the first entry of that name holds.
pub proof fn law_the_first_entry_is_found<V>(s: Seq<(Seq<char>, V)>, key: Seq<char>, i: int)
    requires
        0 <= i < s.len(),
        s[i].0 == key,
        forall|j: int| 0 <= j < i ==> (#[trigger] s[j]).0 != key,
    ensures
        lookup(s, key) == Some(s[i].1),
    decreases s.len(),
{
    if i > 0 {
        let rest = s.drop_first();
        assert(s[0].0 != key);
        assert forall|j: int| 0 <= j < i - 1 implies (#[trigger] rest[j]).0 != key by {
            assert(rest[j] == s[j + 1]);
        }
        law_the_first_entry_is_found(rest, key, i - 1);
    }
}

/// Nothing stands under a name that no entry has.
pub proof fn law_what_is_not_there_is_not_found<V>(s: Seq<(Seq<char>, V)>, key: Seq<char>)
    requires
        forall|j: int| 0 <= j < s.len() ==> (#[trigger] s[j]).0 != key,
    ensures
        lookup(s, key) is None,
    decreases s.len(),
{
    if s.len() > 0 {
        let rest = s.drop_first();
        assert(s[0].0 != key);
        assert forall|j: int| 0 <= j < rest.len() implies (#[trigger] rest[j]).0 != key by {
            assert(rest[j] == s[j + 1]);
        }
        law_what_is_not_there_is_not_found(rest, key);
    }
}

} // verus!
