//! Memory availability, measured rather than derived.
//!
//! `total - used` is deliberately not used: a large share of "used" memory is
//! reclaimable cache.

use vstd::prelude::*;
use crate::digits;
use crate::digits::{digits_in_front, parse_number};
use crate::split;
use crate::split::{split_lines, split_once, split_once_at};
use crate::text;
use crate::text::{chars_of, is_ignoring_case, trimmed};

verus! {

#[derive(Debug, Clone, Copy, PartialEq, Eq, Structural)]
pub struct MemorySnapshot {
    pub page_size: u64,
    pub free: u64,
    pub active: u64,
    pub inactive: u64,
    pub speculative: u64,
    pub wired: u64,
    pub purgeable: u64,
    pub compressed: u64,
}

impl MemorySnapshot {
    /// The bytes that can be had.
    pub open spec fn available(self) -> nat {
        ((self.free + self.inactive + self.speculative + self.purgeable) * self.page_size) as nat
    }

    /// The bytes there are.
    pub open spec fn total(self) -> nat {
        ((self.free + self.active + self.inactive + self.speculative + self.wired + self.purgeable
            + self.compressed) * self.page_size) as nat
    }

    /// Whether the figures can be added up and turned into bytes.
    pub open spec fn fits(self) -> bool {
        &&& self.free + self.active + self.inactive + self.speculative + self.wired + self.purgeable
            + self.compressed <= u64::MAX
        &&& self.total() <= u64::MAX
    }

    /// Whether the figures can be added up and turned into bytes.
    pub fn adds_up(&self) -> (r: bool)
        ensures
            r == self.fits(),
    {
        let pages: u128 = self.free as u128 + self.active as u128 + self.inactive as u128
            + self.speculative as u128 + self.wired as u128 + self.purgeable as u128
            + self.compressed as u128;
        if pages > u64::MAX as u128 {
            return false;
        }
        assert(pages * self.page_size <= u64::MAX * u64::MAX) by (nonlinear_arith)
            requires
                0 <= pages <= u64::MAX,
                0 <= self.page_size <= u64::MAX,
        ;
        pages * self.page_size as u128 <= u64::MAX as u128
    }

    /// Whether what can be had can be added up and turned into bytes.
    pub open spec fn spares(self) -> bool {
        &&& self.free + self.inactive + self.speculative + self.purgeable <= u64::MAX
        &&& self.available() <= u64::MAX
    }

    /// Whether what can be had can be added up and turned into bytes.
    pub fn can_spare(&self) -> (r: bool)
        ensures
            r == self.spares(),
    {
        let pages: u128 = self.free as u128 + self.inactive as u128 + self.speculative as u128
            + self.purgeable as u128;
        if pages > u64::MAX as u128 {
            return false;
        }
        assert(pages * self.page_size <= u64::MAX * u64::MAX) by (nonlinear_arith)
            requires
                0 <= pages <= u64::MAX,
                0 <= self.page_size <= u64::MAX,
        ;
        pages * self.page_size as u128 <= u64::MAX as u128
    }

    /// What the kernel will actually surrender under pressure.
    pub fn available_bytes(&self) -> (n: u64)
        requires
            self.spares(),
        ensures
            n == self.available(),
    {
        (self.free + self.inactive + self.speculative + self.purgeable) * self.page_size
    }

    /// Everything the machine has. Distinguishes "cannot ever fit here" from
    /// "cannot fit right now" — without it the waiting state is unreachable.
    pub fn total_bytes(&self) -> (n: u64)
        requires
            self.fits(),
        ensures
            n == self.total(),
    {
        (self.free + self.active + self.inactive + self.speculative + self.wired + self.purgeable
            + self.compressed) * self.page_size
    }
}

/// What can be had is part of what there is.
pub proof fn law_available_is_part_of_total(s: MemorySnapshot)
    ensures
        s.available() <= s.total(),
        s.fits() ==> s.spares(),
{
    let a = s.free + s.inactive + s.speculative + s.purgeable;
    let t = s.free + s.active + s.inactive + s.speculative + s.wired + s.purgeable + s.compressed;
    assert(a * s.page_size <= t * s.page_size) by (nonlinear_arith)
        requires
            0 <= a <= t,
            0 <= s.page_size,
    ;
}

/// A page is available exactly where the kernel would give it up: one more that is
/// free, inactive, speculative or purgeable is one more that can be had, and one
/// more that is active, wired or compressed is not. Either is one more that there
/// is.
pub proof fn law_what_can_be_had(s: MemorySnapshot, more: u64)
    requires
        s.free + more <= u64::MAX,
        s.inactive + more <= u64::MAX,
        s.speculative + more <= u64::MAX,
        s.purgeable + more <= u64::MAX,
        s.active + more <= u64::MAX,
        s.wired + more <= u64::MAX,
        s.compressed + more <= u64::MAX,
    ensures
        ({
            let bytes = more * s.page_size;
            let a = s.available() + bytes;
            let t = s.total() + bytes;
            let free = MemorySnapshot { free: (s.free + more) as u64, ..s };
            let inactive = MemorySnapshot { inactive: (s.inactive + more) as u64, ..s };
            let speculative = MemorySnapshot { speculative: (s.speculative + more) as u64, ..s };
            let purgeable = MemorySnapshot { purgeable: (s.purgeable + more) as u64, ..s };
            let active = MemorySnapshot { active: (s.active + more) as u64, ..s };
            let wired = MemorySnapshot { wired: (s.wired + more) as u64, ..s };
            let compressed = MemorySnapshot { compressed: (s.compressed + more) as u64, ..s };
            &&& free.available() == a && free.total() == t
            &&& inactive.available() == a && inactive.total() == t
            &&& speculative.available() == a && speculative.total() == t
            &&& purgeable.available() == a && purgeable.total() == t
            &&& active.available() == s.available() && active.total() == t
            &&& wired.available() == s.available() && wired.total() == t
            &&& compressed.available() == s.available() && compressed.total() == t
        }),
{
    let p = s.page_size as int;
    let a = s.free + s.inactive + s.speculative + s.purgeable;
    let t = s.free + s.active + s.inactive + s.speculative + s.wired + s.purgeable + s.compressed;
    assert((a + more) * p == a * p + more * p) by (nonlinear_arith);
    assert((t + more) * p == t * p + more * p) by (nonlinear_arith);
    assert(a * p >= 0 && t * p >= 0 && more * p >= 0) by (nonlinear_arith)
        requires
            a >= 0,
            t >= 0,
            p >= 0,
    ;
}

/// Where there is nothing, nothing can be had.
pub proof fn law_nothing_is_available_of_nothing(page_size: u64)
    ensures
        ({
            let s = MemorySnapshot {
                page_size,
                free: 0,
                active: 0,
                inactive: 0,
                speculative: 0,
                wired: 0,
                purgeable: 0,
                compressed: 0,
            };
            s.available() == 0 && s.total() == 0
        }),
{
    assert(0 * page_size == 0) by (nonlinear_arith);
}

/// A probe is a trait so budget logic can be tested against scripted pressure
/// instead of whatever the machine happens to be doing.
pub trait MemoryProbe: Send + Sync {
    /// Whether this is something that the probe may show. One that says nothing
    /// of what it shows may show anything.
    open spec fn may_show(&self, shown: Result<MemorySnapshot, String>) -> bool {
        true
    }

    fn snapshot(&self) -> (r: Result<MemorySnapshot, String>)
        ensures
            self.may_show(r),
    ;
}

/// The number a text begins with, where it begins with one that fits.
pub open spec fn leading_number(s: Seq<char>) -> Option<nat> {
    digits::number(digits::leading_digits(s), u64::MAX as nat)
}

/// The page size a report states, or the customary one.
pub open spec fn page_size_of(report: Seq<char>) -> nat {
    match split::halves_at(report, "page size of "@) {
        Some((_, rest)) => match leading_number(rest) {
            Some(n) => n,
            None => 4096,
        },
        None => 4096,
    }
}

/// Whether a line states the figure of that name.
pub open spec fn states(line: Seq<char>, name: Seq<char>) -> bool {
    match split::halves(line, ':') {
        Some((label, _)) => text::same_letters(text::trim(label), name),
        None => false,
    }
}

/// The figure a line states, or nothing where it is no number.
pub open spec fn figure_on(line: Seq<char>) -> nat {
    match split::halves(line, ':') {
        Some((_, value)) => match leading_number(text::trim(value)) {
            Some(n) => n,
            None => 0,
        },
        None => 0,
    }
}

/// The figure of that name, from the first line that states it.
pub open spec fn figure(lines: Seq<Seq<char>>, name: Seq<char>) -> nat
    decreases lines.len(),
{
    if lines.len() == 0 {
        0
    } else if states(lines[0], name) {
        figure_on(lines[0])
    } else {
        figure(lines.drop_first(), name)
    }
}

fn read_leading_number(s: &[char]) -> (r: Option<u64>)
    ensures
        r is Some == leading_number(s@) is Some,
        r matches Some(n) ==> Some(n as nat) == leading_number(s@),
{
    parse_number(digits_in_front(s), u64::MAX)
}

fn read_figure(lines: &[&[char]], name: &str) -> (n: u64)
    ensures
        n == figure(text::pieces(lines@), name@),
{
    let ghost p = text::pieces(lines@);
    let mut i: usize = 0;
    assert(p.skip(0) =~= p);
    while i < lines.len()
        invariant
            i <= lines.len(),
            p == text::pieces(lines@),
            figure(p.skip(i as int), name@) == figure(p, name@),
        decreases lines.len() - i,
    {
        assert(p.skip(i as int)[0] == lines@[i as int]@);
        assert(p.skip(i as int).drop_first() =~= p.skip(i + 1));
        if let Some((label, value)) = split_once(lines[i], ':') {
            if is_ignoring_case(trimmed(label), name) {
                return match read_leading_number(trimmed(value)) {
                    Some(n) => n,
                    None => 0,
                };
            }
        }
        i = i + 1;
    }
    0
}

/// The snapshot that a `vm_stat` report states. A figure that is missing counts
/// as nothing, so every report can be read.
pub fn parse_vm_stat(text: &str) -> (r: Result<MemorySnapshot, String>)
    ensures
        r is Ok,
        ({
            let s = r->Ok_0;
            let l = split::lines(text@);
            &&& s.page_size == page_size_of(text@)
            &&& s.free == figure(l, "Pages free"@)
            &&& s.active == figure(l, "Pages active"@)
            &&& s.inactive == figure(l, "Pages inactive"@)
            &&& s.speculative == figure(l, "Pages speculative"@)
            &&& s.wired == figure(l, "Pages wired down"@)
            &&& s.purgeable == figure(l, "Pages purgeable"@)
            &&& s.compressed == figure(l, "Pages occupied by compressor"@)
        }),
{
    let chars = chars_of(text);
    let mut page_size: u64 = 4096;
    if let Some((_, rest)) = split_once_at(chars.as_slice(), "page size of ") {
        if let Some(n) = read_leading_number(rest) {
            page_size = n;
        }
    }
    let lines = split_lines(chars.as_slice());
    let l = lines.as_slice();
    Ok(
        MemorySnapshot {
            page_size,
            free: read_figure(l, "Pages free"),
            active: read_figure(l, "Pages active"),
            inactive: read_figure(l, "Pages inactive"),
            speculative: read_figure(l, "Pages speculative"),
            wired: read_figure(l, "Pages wired down"),
            purgeable: read_figure(l, "Pages purgeable"),
            compressed: read_figure(l, "Pages occupied by compressor"),
        },
    )
}

/// A figure is read of the first line that has its name, in whatever case, before a
/// colon: the number behind it, whatever follows.
pub proof fn law_a_figure_is_read_of_its_line(
    before: Seq<Seq<char>>,
    label: Seq<char>,
    pad: Seq<char>,
    n: nat,
    after: Seq<Seq<char>>,
    name: Seq<char>,
)
    requires
        forall|i: int| 0 <= i < before.len() ==> !states(#[trigger] before[i], name),
        text::is_trimmed(label),
        !label.contains(':'),
        text::same_letters(label, name),
        text::all_white(pad),
        n <= u64::MAX,
    ensures
        figure(before + seq![label + seq![':'] + (pad + digits::decimal(n) + seq!['.'])] + after, name) == n,
    decreases before.len(),
{
    let value = pad + digits::decimal(n) + seq!['.'];
    let line = label + seq![':'] + value;
    let all = before + seq![line] + after;
    if before.len() > 0 {
        assert(all[0] == before[0]);
        assert(all.drop_first() =~= before.drop_first() + seq![line] + after);
        assert forall|i: int| 0 <= i < before.drop_first().len() implies !states(
            #[trigger] before.drop_first()[i],
            name,
        ) by {
            assert(before.drop_first()[i] == before[i + 1]);
        }
        law_a_figure_is_read_of_its_line(before.drop_first(), label, pad, n, after, name);
    } else {
        assert(all[0] == line);
        split::law_a_text_is_parted_at_the_first(label, ':', value);
        text::lemma_trim_fixed(label);
        digits::lemma_decimal(n);
        let d = digits::decimal(n);
        let told = d + seq!['.'];
        assert(digits::is_digit(d[0]));
        assert(told[0] == d[0] && told.last() == '.');
        text::lemma_trim_padded(pad, told, seq![]);
        assert(pad + told + Seq::<char>::empty() =~= value);
        digits::law_the_digits_in_front_are_all(d, seq!['.']);
        digits::lemma_number_of_decimal(n, u64::MAX as nat);
    }
}

/// A figure that no line states is nothing, and neither is a label without a number.
pub proof fn law_a_figure_that_is_not_stated_is_nothing(lines: Seq<Seq<char>>, name: Seq<char>)
    requires
        forall|i: int| 0 <= i < lines.len() ==> !states(#[trigger] lines[i], name),
    ensures
        figure(lines, name) == 0,
    decreases lines.len(),
{
    if lines.len() > 0 {
        assert(!states(lines[0], name));
        assert forall|i: int| 0 <= i < lines.drop_first().len() implies !states(
            #[trigger] lines.drop_first()[i],
            name,
        ) by {
            assert(lines.drop_first()[i] == lines[i + 1]);
        }
        law_a_figure_that_is_not_stated_is_nothing(lines.drop_first(), name);
    }
}

/// A line states a figure only by its name before a colon.
pub proof fn law_a_line_states_what_it_names(line: Seq<char>, name: Seq<char>)
    ensures
        !line.contains(':') ==> !states(line, name),
        states(line, name) ==> exists|label: Seq<char>, value: Seq<char>|
            line == #[trigger] (label + seq![':'] + value) && text::same_letters(text::trim(label), name),
{
    text::lemma_first_of(line, ':');
    let k = text::first_of(line, ':');
    if 0 <= k < line.len() {
        assert(line.contains(line[k]));
        assert(line =~= line.take(k) + seq![':'] + line.skip(k + 1));
    }
}

/// The size of a page is the one that the report states, and the customary one where
/// it states none.
pub proof fn law_the_page_size_is_the_one_stated(lead: Seq<char>, n: nat, rest: Seq<char>)
    requires
        !lead.contains('p'),
        n <= u64::MAX,
        rest.len() > 0 ==> !digits::is_digit(rest[0]),
    ensures
        page_size_of(lead + "page size of "@ + (digits::decimal(n) + rest)) == n,
        page_size_of(lead) == 4096,
{
    let p = "page size of "@;
    reveal_strlit("page size of ");
    assert(p[0] == 'p');
    let told = digits::decimal(n) + rest;
    let s = lead + p + told;
    text::law_the_first_place_is_the_first(lead, p, told);
    let i = text::first_place(s, p)->0;
    if i < lead.len() {
        assert(s.subrange(i, i + p.len())[0] == s[i]);
        assert(lead.contains(lead[i]));
    }
    assert(s.skip(i + p.len()) =~= told);
    assert(s.take(i) =~= lead);
    digits::lemma_decimal(n);
    digits::law_the_digits_in_front_are_all(digits::decimal(n), rest);
    digits::lemma_number_of_decimal(n, u64::MAX as nat);
    text::lemma_first_place(lead, p);
    if text::first_place(lead, p) is Some {
        let j = text::first_place(lead, p)->0;
        assert(text::stands_at(lead, p, j));
        assert(lead.subrange(j, j + p.len())[0] == lead[j]);
        assert(lead.contains(lead[j]));
    }
}

} // verus!
