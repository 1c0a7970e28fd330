//! Replaying scripted replies.
//!
//! The engine can run against recorded replies, so that a run needs no model, no
//! memory and no network, and never varies.

use vstd::prelude::*;
use crate::chat;
use crate::chat::{recover_from_text, Message, Role, Turn};
use crate::node::copy_texts;
use crate::ollama;
use crate::ollama::{Answer, ChatReply, Completion};
use crate::split;
use crate::split::join_strings;
use crate::text;
use crate::text::{chars_of, string_of, strip_prefix};

verus! {

/// Where streamed tokens go.
pub trait TokenSink: Send {
    fn token(&mut self, t: &str);
}

/// Replays scripted replies.
///
/// A reply prefixed with `NATIVE:` is delivered through the tool channel, one
/// prefixed with `CUT:` as an answer that ran out of room; any other reply is
/// delivered as plain text. The distinction has to be scriptable because it is
/// real: some models use the channel and others write the same JSON into the
/// text.
#[derive(Debug)]
pub struct ReplayBackend {
    replies: Vec<String>,
    next: usize,
    seen: Vec<String>,
    predicts: Vec<i32>,
}

/// The name a role is shown by.
pub open spec fn shown_role(role: Role) -> Seq<char> {
    match role {
        Role::System => "System"@,
        Role::User => "User"@,
        Role::Assistant => "Assistant"@,
        Role::Tool => "Tool"@,
    }
}

/// A message as a test sees it, with the calls it made.
pub open spec fn shown_turn(m: Turn) -> Seq<char> {
    let head = "["@ + shown_role(m.role) + "] "@ + m.content;
    if m.calls.len() == 0 {
        head
    } else {
        head + " <calls: "@ + split::join(m.calls.map_values(|c: chat::Asked| c.name), ", "@) + ">"@
    }
}

/// A conversation as a test sees it.
pub open spec fn shown(messages: Seq<Turn>) -> Seq<char> {
    split::join(messages.map_values(|m: Turn| shown_turn(m)), "\n"@)
}

/// The answer that a scripted reply is.
pub open spec fn scripted(reply: Seq<char>) -> Answer {
    match text::after_prefix(reply, "CUT:"@) {
        Some(rest) => Answer { text: rest, truncated: true, ..ollama::no_answer() },
        None => Answer { text: reply, ..ollama::no_answer() },
    }
}

/// The answer that a scripted reply is in a conversation.
pub open spec fn scripted_chat(reply: Seq<char>) -> Answer {
    match text::after_prefix(reply, "NATIVE:"@) {
        Some(body) => Answer { calls: chat::calls_from(body, 0), ..ollama::no_answer() },
        None => scripted(reply),
    }
}

fn show_turn(m: &Message) -> (s: String)
    ensures
        s@ == shown_turn(m@),
{
    let mut s = "[".to_owned();
    match m.role {
        Role::System => s.append("System"),
        Role::User => s.append("User"),
        Role::Assistant => s.append("Assistant"),
        Role::Tool => s.append("Tool"),
    }
    s.append("] ");
    s.append(m.content.as_str());
    if m.tool_calls.len() > 0 {
        let ghost all = m@.calls.map_values(|c: chat::Asked| c.name);
        let mut names: Vec<String> = Vec::new();
        let mut i: usize = 0;
        assert(text::texts(names@) =~= all.take(0));
        while i < m.tool_calls.len()
            invariant
                i <= m.tool_calls.len(),
                all == m@.calls.map_values(|c: chat::Asked| c.name),
                text::texts(names@) == all.take(i as int),
            decreases m.tool_calls.len() - i,
        {
            let one = m.tool_calls[i].name.as_str().to_owned();
            proof {
                text::lemma_texts_push(names@, one);
            }
            names.push(one);
            i = i + 1;
            assert(all.take(i as int) =~= all.take(i - 1).push(all[i - 1]));
        }
        assert(all.take(i as int) =~= all);
        s.append(" <calls: ");
        s.append(join_strings(names.as_slice(), ", ").as_str());
        s.append(">");
    }
    s
}

fn show(messages: &[Message]) -> (s: String)
    ensures
        s@ == shown(chat::turns(messages@)),
{
    let ghost all = chat::turns(messages@).map_values(|m: Turn| shown_turn(m));
    let mut v: Vec<String> = Vec::new();
    let mut i: usize = 0;
    assert(text::texts(v@) =~= all.take(0));
    while i < messages.len()
        invariant
            i <= messages.len(),
            all == chat::turns(messages@).map_values(|m: Turn| shown_turn(m)),
            text::texts(v@) == all.take(i as int),
        decreases messages.len() - i,
    {
        let one = show_turn(&messages[i]);
        assert(one@ == all[i as int]);
        proof {
            text::lemma_texts_push(v@, one);
        }
        v.push(one);
        i = i + 1;
        assert(all.take(i as int) =~= all.take(i - 1).push(all[i - 1]));
    }
    assert(all.take(i as int) =~= all);
    join_strings(v.as_slice(), "\n")
}

impl ReplayBackend {
    /// The replies that are left.
    pub closed spec fn left(self) -> Seq<Seq<char>> {
        text::texts(self.replies@).skip(self.next as int)
    }

    /// The prompts that were sent.
    pub closed spec fn sent(self) -> Seq<Seq<char>> {
        text::texts(self.seen@)
    }

    /// How many tokens were asked for, each time.
    pub closed spec fn room(self) -> Seq<i32> {
        self.predicts@
    }

    /// Whether the script is at one of its replies, or at its end.
    pub closed spec fn wf(self) -> bool {
        self.next <= self.replies@.len()
    }

    pub fn new(replies: Vec<String>) -> (b: Self)
        ensures
            b.wf(),
            b.left() == text::texts(replies@),
            b.sent() == Seq::<Seq<char>>::empty(),
            b.room() == Seq::<i32>::empty(),
    {
        let ghost all = text::texts(replies@);
        let b = ReplayBackend { replies, next: 0, seen: Vec::new(), predicts: Vec::new() };
        assert(b.left() =~= all);
        assert(b.sent() =~= Seq::<Seq<char>>::empty());
        b
    }

    /// Prompts the engine actually sent, for asserting on context assembly.
    pub fn prompts(&self) -> (v: Vec<String>)
        ensures
            text::texts(v@) == self.sent(),
    {
        copy_texts(self.seen.as_slice())
    }

    /// How many tokens the engine actually asked for.
    pub fn predicts(&self) -> (v: Vec<i32>)
        ensures
            v@ == self.room(),
    {
        let mut v: Vec<i32> = Vec::new();
        let mut i: usize = 0;
        while i < self.predicts.len()
            invariant
                i <= self.predicts.len(),
                v@ == self.predicts@.take(i as int),
            decreases self.predicts.len() - i,
        {
            v.push(self.predicts[i]);
            i = i + 1;
            assert(self.predicts@.take(i as int) =~= self.predicts@.take(i - 1).push(self.predicts@[i - 1]));
        }
        assert(self.predicts@.take(i as int) =~= self.predicts@);
        v
    }

    pub fn remaining(&self) -> (n: usize)
        requires
            self.wf(),
        ensures
            n == self.left().len(),
    {
        self.replies.len() - self.next
    }

    /// Notes what was sent and takes the next reply off the script.
    fn take(&mut self, sent: String, num_predict: i32) -> (r: Option<String>)
        requires
            old(self).wf(),
        ensures
            final(self).wf(),
            final(self).sent() == old(self).sent().push(sent@),
            final(self).room() == old(self).room().push(num_predict),
            match r {
                Some(s) => old(self).left().len() > 0 && s@ == old(self).left()[0] && final(self).left()
                    == old(self).left().drop_first(),
                None => old(self).left().len() == 0 && final(self).left() == old(self).left(),
            },
    {
        proof {
            text::lemma_texts_push(self.seen@, sent);
        }
        self.seen.push(sent);
        self.predicts.push(num_predict);
        if self.next == self.replies.len() {
            return None;
        }
        let s = self.replies[self.next].as_str().to_owned();
        self.next = self.next + 1;
        assert(self.left() =~= old(self).left().drop_first());
        Some(s)
    }

    /// Replays the next reply in a conversation.
    pub fn chat(&mut self, messages: &[Message], num_predict: i32) -> (r: Result<ChatReply, String>)
        requires
            old(self).wf(),
        ensures
            final(self).wf(),
            final(self).sent() == old(self).sent().push(shown(chat::turns(messages@))),
            final(self).room() == old(self).room().push(num_predict),
            match r {
                Ok(a) => old(self).left().len() > 0 && a@ == scripted_chat(old(self).left()[0])
                    && final(self).left() == old(self).left().drop_first(),
                Err(why) => old(self).left().len() == 0 && final(self).left() == old(self).left() && why@
                    == "the replay backend ran out of scripted replies"@,
            },
    {
        let sent = show(messages);
        match self.take(sent, num_predict) {
            None => Err("the replay backend ran out of scripted replies".to_owned()),
            Some(reply) => {
                let chars = chars_of(reply.as_str());
                let mut a = ChatReply::default();
                match strip_prefix(chars.as_slice(), "NATIVE:") {
                    Some(body) => {
                        a.tool_calls = recover_from_text(string_of(body).as_str());
                    },
                    None => match strip_prefix(chars.as_slice(), "CUT:") {
                        Some(rest) => {
                            a.text = string_of(rest);
                            a.truncated = true;
                        },
                        None => {
                            a.text = reply;
                        },
                    },
                }
                Ok(a)
            },
        }
    }

    /// Replays the next reply to a prompt.
    pub fn generate(&mut self, prompt: &str, num_predict: i32) -> (r: Result<Completion, String>)
        requires
            old(self).wf(),
        ensures
            final(self).wf(),
            final(self).sent() == old(self).sent().push(prompt@),
            final(self).room() == old(self).room().push(num_predict),
            match r {
                Ok(a) => old(self).left().len() > 0 && a@ == scripted(old(self).left()[0]) && final(self).left()
                    == old(self).left().drop_first(),
                Err(why) => old(self).left().len() == 0 && final(self).left() == old(self).left() && why@
                    == "the replay backend ran out of scripted replies"@,
            },
    {
        match self.take(prompt.to_owned(), num_predict) {
            None => Err("the replay backend ran out of scripted replies".to_owned()),
            Some(reply) => {
                let chars = chars_of(reply.as_str());
                let mut a = Completion::default();
                match strip_prefix(chars.as_slice(), "CUT:") {
                    Some(rest) => {
                        a.text = string_of(rest);
                        a.truncated = true;
                    },
                    None => {
                        a.text = reply;
                    },
                }
                Ok(a)
            },
        }
    }
}

/// A scripted reply is given as it stands; behind `CUT:` it is one that was cut off.
pub proof fn law_a_scripted_reply_is_given_as_it_stands(reply: Seq<char>)
    ensures
        scripted("CUT:"@ + reply).text == reply && scripted("CUT:"@ + reply).truncated,
        !text::starts_with(reply, "CUT:"@) ==> scripted(reply).text == reply && !scripted(reply).truncated,
        scripted(reply).calls.len() == 0,
        scripted_chat("NATIVE:"@ + reply).calls == chat::calls_from(reply, 0),
        scripted_chat("NATIVE:"@ + reply).text.len() == 0,
        !text::starts_with(reply, "NATIVE:"@) ==> scripted_chat(reply) == scripted(reply),
{
    let c = "CUT:"@;
    assert((c + reply).take(c.len() as int) =~= c);
    assert((c + reply).skip(c.len() as int) =~= reply);
    let n = "NATIVE:"@;
    assert((n + reply).take(n.len() as int) =~= n);
    assert((n + reply).skip(n.len() as int) =~= reply);
}

/// What is shown of a conversation has every turn in it: who spoke, what was said
/// and the tools that were called.
pub proof fn law_what_is_shown_has_every_turn(messages: Seq<Turn>, i: int, j: int)
    requires
        0 <= i < messages.len(),
    ensures
        text::occurs(shown(messages), "["@ + shown_role(messages[i].role) + "] "@ + messages[i].content),
        0 <= j < messages[i].calls.len() ==> text::occurs(shown(messages), messages[i].calls[j].name),
{
    let all = messages.map_values(|m: Turn| shown_turn(m));
    let m = messages[i];
    let one = shown_turn(m);
    let none: Seq<char> = seq![];
    split::law_a_joined_text_holds_its_pieces(all, "\n"@, i);
    assert(all[i] == one);
    let head = "["@ + shown_role(m.role) + "] "@ + m.content;
    let names = m.calls.map_values(|c: chat::Asked| c.name);
    let joined = split::join(names, ", "@);
    if m.calls.len() == 0 {
        assert(one =~= none + head + none);
        text::lemma_occurs_within(none, head, none);
    } else {
        assert(one =~= none + head + (" <calls: "@ + joined + ">"@));
        text::lemma_occurs_within(none, head, " <calls: "@ + joined + ">"@);
    }
    text::lemma_occurs_trans(shown(messages), one, head);
    if 0 <= j < m.calls.len() {
        split::law_a_joined_text_holds_its_pieces(names, ", "@, j);
        assert(names[j] == m.calls[j].name);
        assert(one =~= (head + " <calls: "@) + joined + ">"@);
        text::lemma_occurs_within(head + " <calls: "@, joined, ">"@);
        text::lemma_occurs_trans(one, joined, names[j]);
        text::lemma_occurs_trans(shown(messages), one, names[j]);
    }
}

} // verus!
