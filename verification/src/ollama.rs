//! What comes back from a local model server: framing, assembly, and why it
//! stopped.
//!
//! Generation parameters are passed per request, so the user's own use of the
//! server is untouched.

use vstd::prelude::*;
use crate::chat;
use crate::chat::ToolCallRequest;
use crate::json;
use crate::text::same;

verus! {

pub const DEFAULT_BASE: &'static str = "http://127.0.0.1:11434";

/// Why a model stopped means that the answer is unfinished only where it ran out
/// of room.
pub open spec fn is_cut_off(done_reason: Option<Seq<char>>) -> bool {
    done_reason == Some("length"@)
}

/// The server says why it stopped; only one of the reasons means the answer is
/// unfinished.
pub fn cut_off_at_the_limit(done_reason: Option<&str>) -> (r: bool)
    ensures
        r == is_cut_off(
            match done_reason {
                Some(s) => Some(s@),
                None => None,
            },
        ),
{
    match done_reason {
        Some(s) => same(s, "length"),
        None => false,
    }
}

#[derive(Debug, Clone, PartialEq, Eq)]
pub struct Completion {
    pub text: String,
    pub prompt_tokens: u32,
    pub eval_tokens: u32,
    /// The answer stopped because it ran out of room, not because it was
    /// finished. A node that reports "malformed document" on a cut-off answer
    /// is blaming the model for the harness's own limit.
    pub truncated: bool,
}

#[derive(Debug, Clone, PartialEq, Eq)]
pub struct ChatReply {
    pub text: String,
    pub tool_calls: Vec<ToolCallRequest>,
    pub prompt_tokens: u32,
    pub eval_tokens: u32,
    /// See `Completion::truncated`.
    pub truncated: bool,
}

/// A model the server has.
#[derive(Debug, Clone, PartialEq, Eq)]
pub struct ModelInfo {
    pub name: String,
    pub size: u64,
}

/// A model the server holds in memory.
#[derive(Debug, Clone, PartialEq, Eq)]
pub struct LoadedModel {
    pub name: String,
    pub size: u64,
    pub size_vram: u64,
}

/// One piece of a streamed answer.
#[derive(Debug, Clone, PartialEq, Eq)]
pub struct Chunk {
    pub content: String,
    pub tool_calls: Vec<ToolCallRequest>,
    pub done: bool,
    pub done_reason: Option<String>,
    pub eval_count: Option<u32>,
    pub prompt_eval_count: Option<u32>,
}

/// An answer, as texts and figures.
#[verifier::ext_equal]
pub struct Answer {
    pub text: Seq<char>,
    pub calls: Seq<chat::Asked>,
    pub prompt_tokens: u32,
    pub eval_tokens: u32,
    pub truncated: bool,
}

impl View for ChatReply {
    type V = Answer;

    open spec fn view(&self) -> Answer {
        Answer {
            text: self.text@,
            calls: chat::all_asked(self.tool_calls@),
            prompt_tokens: self.prompt_tokens,
            eval_tokens: self.eval_tokens,
            truncated: self.truncated,
        }
    }
}

impl View for Completion {
    type V = Answer;

    open spec fn view(&self) -> Answer {
        Answer {
            text: self.text@,
            calls: seq![],
            prompt_tokens: self.prompt_tokens,
            eval_tokens: self.eval_tokens,
            truncated: self.truncated,
        }
    }
}

/// An answer of nothing yet.
pub open spec fn no_answer() -> Answer {
    Answer { text: seq![], calls: seq![], prompt_tokens: 0, eval_tokens: 0, truncated: false }
}

pub open spec fn count_or_zero(n: Option<u32>) -> u32 {
    match n {
        Some(k) => k,
        None => 0,
    }
}

/// An answer with one more piece. The last piece brings the figures and the
/// reason for stopping.
pub open spec fn with_chunk(a: Answer, c: Chunk) -> Answer {
    let b = Answer { text: a.text + c.content@, calls: a.calls + chat::all_asked(c.tool_calls@), ..a };
    if c.done {
        Answer {
            prompt_tokens: count_or_zero(c.prompt_eval_count),
            eval_tokens: count_or_zero(c.eval_count),
            truncated: is_cut_off(json::said(c.done_reason)),
            ..b
        }
    } else {
        b
    }
}

fn or_zero(n: Option<u32>) -> (r: u32)
    ensures
        r == count_or_zero(n),
{
    match n {
        Some(k) => k,
        None => 0,
    }
}

fn is_length(reason: &Option<String>) -> (r: bool)
    ensures
        r == is_cut_off(json::said(*reason)),
{
    match reason {
        Some(s) => cut_off_at_the_limit(Some(s.as_str())),
        None => cut_off_at_the_limit(None),
    }
}

impl Default for ChatReply {
    fn default() -> (r: Self)
        ensures
            r@ == no_answer(),
    {
        let r = ChatReply {
            text: String::new(),
            tool_calls: Vec::new(),
            prompt_tokens: 0,
            eval_tokens: 0,
            truncated: false,
        };
        assert(r@ =~= no_answer());
        r
    }
}

impl Default for Completion {
    fn default() -> (r: Self)
        ensures
            r@ == no_answer(),
    {
        let r = Completion { text: String::new(), prompt_tokens: 0, eval_tokens: 0, truncated: false };
        assert(r@ =~= no_answer());
        r
    }
}

impl ChatReply {
    /// Takes in one more piece of the answer.
    pub fn absorb(&mut self, c: Chunk)
        ensures
            final(self)@ == with_chunk(old(self)@, c),
    {
        let ghost before = self@;
        let ghost made = chat::all_asked(c.tool_calls@);
        self.text.append(c.content.as_str());
        let ghost calls = self.tool_calls@;
        let mut more = c.tool_calls;
        self.tool_calls.append(&mut more);
        assert(chat::all_asked(self.tool_calls@) =~= before.calls + made);
        if c.done {
            self.prompt_tokens = or_zero(c.prompt_eval_count);
            self.eval_tokens = or_zero(c.eval_count);
            self.truncated = is_length(&c.done_reason);
        }
    }
}

impl Completion {
    /// Takes in one more piece of the answer, which asks for no tools.
    pub fn absorb(&mut self, c: &Chunk)
        requires
            c.tool_calls@.len() == 0,
        ensures
            final(self)@ == with_chunk(old(self)@, *c),
    {
        self.text.append(c.content.as_str());
        if c.done {
            self.prompt_tokens = or_zero(c.prompt_eval_count);
            self.eval_tokens = or_zero(c.eval_count);
            self.truncated = is_length(&c.done_reason);
        }
        assert(self@ =~= with_chunk(old(self)@, *c));
    }
}

// ------------------------------------------------------------------------ framing

/// The place of the first line break, or the number of bytes where there is none.
pub open spec fn first_break(b: Seq<u8>) -> int
    decreases b.len(),
{
    if b.len() == 0 || b[0] == 10 {
        0
    } else {
        1 + first_break(b.drop_first())
    }
}

/// The complete lines in a stream of bytes, those that are not empty.
pub open spec fn complete_lines(b: Seq<u8>) -> Seq<Seq<u8>>
    decreases b.len(),
{
    let k = first_break(b);
    if k < 0 || k >= b.len() {
        seq![]
    } else if k == 0 {
        complete_lines(b.skip(1))
    } else {
        seq![b.take(k)] + complete_lines(b.skip(k + 1))
    }
}

/// What follows the last line break.
pub open spec fn unfinished(b: Seq<u8>) -> Seq<u8>
    decreases b.len(),
{
    let k = first_break(b);
    if k < 0 || k >= b.len() {
        b
    } else {
        unfinished(b.skip(k + 1))
    }
}

pub proof fn lemma_first_break(b: Seq<u8>)
    ensures
        0 <= first_break(b) <= b.len(),
        first_break(b) < b.len() ==> b[first_break(b)] == 10,
        forall|j: int| 0 <= j < first_break(b) ==> b[j] != 10,
    decreases b.len(),
{
    if b.len() > 0 && b[0] != 10 {
        lemma_first_break(b.drop_first());
        assert forall|j: int| 0 <= j < first_break(b) implies b[j] != 10 by {
            if j > 0 {
                assert(b.drop_first()[j - 1] == b[j]);
            }
        }
    }
}

proof fn lemma_first_break_is(b: Seq<u8>, k: int)
    requires
        0 <= k <= b.len(),
        k < b.len() ==> b[k] == 10,
        forall|j: int| 0 <= j < k ==> b[j] != 10,
    ensures
        first_break(b) == k,
{
    lemma_first_break(b);
}

/// Lines, as bytes.
pub open spec fn as_lines(v: Seq<Vec<u8>>) -> Seq<Seq<u8>> {
    v.map_values(|l: Vec<u8>| l@)
}

/// Cuts a stream of bytes into lines, whatever the pieces it arrives in.
#[derive(Debug, Clone, PartialEq, Eq)]
pub struct LineBuffer {
    bytes: Vec<u8>,
}

impl LineBuffer {
    /// The bytes of the line that has not ended yet.
    pub closed spec fn pending(self) -> Seq<u8> {
        self.bytes@
    }

    pub fn new() -> (b: Self)
        ensures
            b.pending() == Seq::<u8>::empty(),
    {
        LineBuffer { bytes: Vec::new() }
    }

    /// Takes in the next piece and hands out the lines that it completes.
    pub fn feed(&mut self, piece: &[u8]) -> (v: Vec<Vec<u8>>)
        ensures
            as_lines(v@) == complete_lines(old(self).pending() + piece@),
            final(self).pending() == unfinished(old(self).pending() + piece@),
    {
        let ghost all = self.bytes@ + piece@;
        let mut i: usize = 0;
        while i < piece.len()
            invariant
                i <= piece.len(),
                all == old(self).bytes@ + piece@,
                self.bytes@ == old(self).bytes@ + piece@.take(i as int),
            decreases piece.len() - i,
        {
            self.bytes.push(piece[i]);
            i = i + 1;
            assert(piece@.take(i as int) =~= piece@.take(i - 1).push(piece@[i - 1]));
        }
        assert(self.bytes@ =~= all);
        let mut v: Vec<Vec<u8>> = Vec::new();
        let mut start: usize = 0;
        let mut j: usize = 0;
        assert(all.skip(0) =~= all);
        assert(as_lines(v@) + complete_lines(all.skip(0)) =~= complete_lines(all));
        while j < self.bytes.len()
            invariant
                start <= j <= all.len(),
                self.bytes@ == all,
                forall|x: int| start <= x < j ==> all[x] != 10,
                as_lines(v@) + complete_lines(all.skip(start as int)) == complete_lines(all),
                unfinished(all.skip(start as int)) == unfinished(all),
            decreases all.len() - j,
        {
            if self.bytes[j] == 10 {
                let ghost before = v@;
                let ghost rest = all.skip(start as int);
                proof {
                    lemma_first_break_is(rest, j - start);
                    assert(rest.skip(j - start + 1) =~= all.skip(j + 1));
                }
                if j > start {
                    let line = copy_bytes(&self.bytes, start, j);
                    v.push(line);
                    assert(line@ =~= rest.take(j - start));
                    assert(as_lines(v@) =~= as_lines(before).push(line@));
                    assert(as_lines(v@) + complete_lines(all.skip(j + 1)) =~= as_lines(before) + complete_lines(
                        rest,
                    ));
                } else {
                    assert(rest.skip(1) =~= all.skip(j + 1));
                }
                start = j + 1;
            }
            j = j + 1;
        }
        proof {
            let rest = all.skip(start as int);
            lemma_first_break_is(rest, rest.len() as int);
            assert(as_lines(v@) + complete_lines(rest) =~= as_lines(v@));
        }
        let left = copy_bytes(&self.bytes, start, self.bytes.len());
        assert(left@ =~= all.skip(start as int));
        self.bytes = left;
        v
    }
}

fn copy_bytes(b: &Vec<u8>, from: usize, to: usize) -> (v: Vec<u8>)
    requires
        from <= to <= b@.len(),
    ensures
        v@ == b@.subrange(from as int, to as int),
{
    let mut v: Vec<u8> = Vec::new();
    let mut i: usize = from;
    while i < to
        invariant
            from <= i <= to <= b@.len(),
            v@ == b@.subrange(from as int, i as int),
        decreases to - i,
    {
        v.push(b[i]);
        i = i + 1;
        assert(b@.subrange(from as int, i as int) =~= b@.subrange(from as int, i - 1).push(b@[i - 1]));
    }
    v
}

/// How a stream is cut into pieces makes no difference to the lines: what one
/// piece leaves unfinished, the next goes on from.
pub proof fn law_pieces_make_no_difference(a: Seq<u8>, b: Seq<u8>)
    ensures
        complete_lines(a + b) == complete_lines(a) + complete_lines(unfinished(a) + b),
        unfinished(a + b) == unfinished(unfinished(a) + b),
    decreases a.len(),
{
    lemma_first_break(a);
    let k = first_break(a);
    if k >= a.len() {
        assert(complete_lines(a) + complete_lines(a + b) =~= complete_lines(a + b));
    } else {
        assert forall|j: int| 0 <= j < k implies (a + b)[j] != 10 by {
            assert((a + b)[j] == a[j]);
        }
        lemma_first_break_is(a + b, k);
        let rest = a.skip(k + 1);
        assert((a + b).skip(k + 1) =~= rest + b);
        law_pieces_make_no_difference(rest, b);
        assert((a + b).take(k) =~= a.take(k));
        if k == 0 {
            assert((a + b).skip(1) =~= rest + b);
            assert(a.skip(1) =~= rest);
        }
        assert(complete_lines(a + b) =~= complete_lines(a) + complete_lines(unfinished(a) + b));
    }
}

/// A line of the stream is what stands before a break, without it; an empty one is
/// passed over, and what follows the last break is kept for later.
pub proof fn law_a_line_ends_with_its_break(l: Seq<u8>, rest: Seq<u8>)
    requires
        !l.contains(10),
    ensures
        complete_lines(l + seq![10u8] + rest) == (if l.len() == 0 {
            complete_lines(rest)
        } else {
            seq![l] + complete_lines(rest)
        }),
        unfinished(l + seq![10u8] + rest) == unfinished(rest),
        complete_lines(l).len() == 0,
        unfinished(l) == l,
{
    let s = l + seq![10u8] + rest;
    let k = l.len() as int;
    assert(s[k] == 10);
    assert forall|j: int| 0 <= j < k implies s[j] != 10 by {
        assert(s[j] == l[j]);
        assert(l.contains(l[j]));
    }
    lemma_first_break_is(s, k);
    assert(s.take(k) =~= l);
    assert(s.skip(k + 1) =~= rest);
    lemma_first_break(l);
    if first_break(l) < l.len() {
        assert(l.contains(l[first_break(l)]));
    }
}

/// An answer is what its chunks said, one after the other, and the calls they made.
pub proof fn law_an_answer_is_made_of_its_chunks(a: Answer, c: Chunk, d: Chunk)
    ensures
        with_chunk(with_chunk(a, c), d).text == a.text + (c.content@ + d.content@),
        with_chunk(with_chunk(a, c), d).calls == a.calls + (chat::all_asked(c.tool_calls@) + chat::all_asked(
            d.tool_calls@,
        )),
{
    assert(a.text + c.content@ + d.content@ =~= a.text + (c.content@ + d.content@));
    let x = chat::all_asked(c.tool_calls@);
    let y = chat::all_asked(d.tool_calls@);
    assert(a.calls + x + y =~= a.calls + (x + y));
}

/// The last chunk says what the answer cost and whether it was cut off for length;
/// no other does.
pub proof fn law_the_last_chunk_says_what_it_cost(a: Answer, c: Chunk)
    ensures
        !c.done ==> with_chunk(a, c).prompt_tokens == a.prompt_tokens && with_chunk(a, c).eval_tokens == a.eval_tokens
            && with_chunk(a, c).truncated == a.truncated,
        c.done && c.prompt_eval_count is Some ==> with_chunk(a, c).prompt_tokens == c.prompt_eval_count->0,
        c.done && c.eval_count is Some ==> with_chunk(a, c).eval_tokens == c.eval_count->0,
        c.done ==> (with_chunk(a, c).truncated <==> (c.done_reason matches Some(r) && r@ == "length"@)),
{
}

} // verus!
