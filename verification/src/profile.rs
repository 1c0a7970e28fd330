//! What a model can actually do, measured rather than declared.
//!
//! Vendor metadata is not trustworthy on this point: models declare a tool
//! capability and then write their calls into the text instead. A product that
//! must run on any model cannot ask the model what it can do — it has to find
//! out, once, and then adapt.
//!
//! The protocol adapts to the model. A weaker model gets a simpler protocol,
//! never a broken one.

use vstd::prelude::*;
use crate::text::same;

verus! {

#[derive(Debug, Clone, Copy, PartialEq, Eq, Structural)]
pub enum ToolChannel {
    /// Calls arrive as structured data. Nothing to parse, nothing to get wrong.
    Native,
    /// Calls arrive as JSON written into the reply. Recoverable, and observed.
    JsonInText,
    /// Neither. Tools are described in the prompt and answers are parsed by
    /// line syntax, which is the last resort.
    TextOnly,
}

/// How a model is asked to change a file. Granularity is a capability: a model
/// that cannot emit a whole file in one argument is not a model that cannot
/// edit, it is a model that needs smaller edits.
#[derive(Debug, Clone, Copy, PartialEq, Eq, Structural)]
pub enum EditStyle {
    /// Send the entire new file.
    WholeFile,
    /// Send the old fragment and the new one; the harness splices them.
    Replacement,
}

#[derive(Debug, PartialEq, Eq)]
pub struct ModelProfile {
    pub model: String,
    pub channel: ToolChannel,
    pub edit_style: EditStyle,
    /// Several calls in one turn, which halves the number of round trips.
    pub parallel_calls: bool,
    /// Produces our document header without needing a correction.
    pub holds_format: bool,
    /// Largest reply seen during probing, in characters. A model asked for more
    /// than it has ever produced will truncate silently.
    pub max_output_chars: usize,
    pub measured_at: String,
}

/// A profile, as texts and figures.
#[verifier::ext_equal]
pub struct Measured {
    pub model: Seq<char>,
    pub channel: ToolChannel,
    pub edit_style: EditStyle,
    pub parallel_calls: bool,
    pub holds_format: bool,
    pub max_output_chars: nat,
    pub measured_at: Seq<char>,
}

impl View for ModelProfile {
    type V = Measured;

    open spec fn view(&self) -> Measured {
        Measured {
            model: self.model@,
            channel: self.channel,
            edit_style: self.edit_style,
            parallel_calls: self.parallel_calls,
            holds_format: self.holds_format,
            max_output_chars: self.max_output_chars as nat,
            measured_at: self.measured_at@,
        }
    }
}

impl Clone for ModelProfile {
    fn clone(&self) -> (p: Self)
        ensures
            p@ == self@,
    {
        ModelProfile {
            model: self.model.as_str().to_owned(),
            channel: self.channel,
            edit_style: self.edit_style,
            parallel_calls: self.parallel_calls,
            holds_format: self.holds_format,
            max_output_chars: self.max_output_chars,
            measured_at: self.measured_at.as_str().to_owned(),
        }
    }
}

/// What is assumed of a model before anything has been measured. Deliberately
/// the most conservative combination that still works: every capability is
/// proven, never presumed.
pub open spec fn assumed(model: Seq<char>) -> Measured {
    Measured {
        model,
        channel: ToolChannel::TextOnly,
        edit_style: EditStyle::Replacement,
        parallel_calls: false,
        holds_format: false,
        max_output_chars: 2000,
        measured_at: seq![],
    }
}

impl ModelProfile {
    /// What to assume before anything has been measured.
    pub fn unmeasured(model: &str) -> (p: Self)
        ensures
            p@ == assumed(model@),
    {
        let p = ModelProfile {
            model: model.to_owned(),
            channel: ToolChannel::TextOnly,
            edit_style: EditStyle::Replacement,
            parallel_calls: false,
            holds_format: false,
            max_output_chars: 2000,
            measured_at: String::new(),
        };
        assert(p@ =~= assumed(model@));
        p
    }

    pub fn is_measured(&self) -> (r: bool)
        ensures
            r == (self@.measured_at.len() > 0),
    {
        self.measured_at.as_str().unicode_len() > 0
    }

    /// How many attempts a node should get at producing its document.
    pub fn document_attempts(&self) -> (n: u32)
        ensures
            n == if self.holds_format {
                3u32
            } else {
                5u32
            },
    {
        if self.holds_format {
            3
        } else {
            5
        }
    }

    /// Whether the tool list can be sent as a schema at all.
    pub fn send_schemas(&self) -> (r: bool)
        ensures
            r == (self.channel == ToolChannel::Native),
    {
        self.channel == ToolChannel::Native
    }
}

/// A profile per model, kept beside the settings and refreshed when a model is
/// bound to a slot.
#[derive(Debug, Clone)]
pub struct ProfileStore {
    pub profiles: Vec<ModelProfile>,
}

impl Default for ProfileStore {
    fn default() -> (s: Self)
        ensures
            s.profiles@.len() == 0,
    {
        ProfileStore { profiles: Vec::new() }
    }
}

/// The first profile of a model.
pub open spec fn profile_of(profiles: Seq<ModelProfile>, model: Seq<char>) -> Option<ModelProfile>
    decreases profiles.len(),
{
    if profiles.len() == 0 {
        None
    } else if profiles[0].model@ == model {
        Some(profiles[0])
    } else {
        profile_of(profiles.drop_first(), model)
    }
}

/// The profiles of other models, in order.
pub open spec fn others(profiles: Seq<ModelProfile>, model: Seq<char>) -> Seq<ModelProfile>
    decreases profiles.len(),
{
    if profiles.len() == 0 {
        seq![]
    } else if profiles.last().model@ == model {
        others(profiles.drop_last(), model)
    } else {
        others(profiles.drop_last(), model).push(profiles.last())
    }
}

impl ProfileStore {
    pub fn get(&self, model: &str) -> (r: Option<&ModelProfile>)
        ensures
            r is Some == profile_of(self.profiles@, model@) is Some,
            r matches Some(p) ==> Some(*p) == profile_of(self.profiles@, model@),
    {
        let ghost all = self.profiles@;
        let mut i: usize = 0;
        assert(all.skip(0) =~= all);
        while i < self.profiles.len()
            invariant
                i <= self.profiles.len(),
                all == self.profiles@,
                profile_of(all.skip(i as int), model@) == profile_of(all, model@),
            decreases self.profiles.len() - i,
        {
            assert(all.skip(i as int)[0] == all[i as int]);
            assert(all.skip(i as int).drop_first() =~= all.skip(i + 1));
            if same(self.profiles[i].model.as_str(), model) {
                return Some(&self.profiles[i]);
            }
            i = i + 1;
        }
        None
    }

    /// The profile to work from: measured if we have one, conservative if not.
    pub fn effective(&self, model: &str) -> (p: ModelProfile)
        ensures
            p@ == match profile_of(self.profiles@, model@) {
                Some(q) => q@,
                None => assumed(model@),
            },
    {
        match self.get(model) {
            Some(p) => p.clone(),
            None => ModelProfile::unmeasured(model),
        }
    }

    /// A remeasurement replaces what was there.
    pub fn put(&mut self, profile: ModelProfile)
        ensures
            final(self).profiles@ == others(old(self).profiles@, profile.model@).push(profile),
    {
        let ghost all = self.profiles@;
        let ghost m = profile.model@;
        let mut i: usize = 0;
        let ghost mut k: int = 0;
        assert(others(all.take(0), m) + all.skip(0) =~= all);
        while i < self.profiles.len()
            invariant
                0 <= k <= all.len(),
                m == profile.model@,
                i == others(all.take(k), m).len(),
                self.profiles@ == others(all.take(k), m) + all.skip(k),
            decreases self.profiles.len() - i,
        {
            let ghost kept = others(all.take(k), m);
            assert(self.profiles@[i as int] == all.skip(k)[0]);
            assert(all.take(k + 1).drop_last() =~= all.take(k));
            assert(all.take(k + 1).last() == all[k]);
            if same(self.profiles[i].model.as_str(), profile.model.as_str()) {
                let gone = self.profiles.remove(i);
                assert(self.profiles@ =~= kept + all.skip(k + 1));
            } else {
                i = i + 1;
                assert(self.profiles@ =~= kept.push(all[k]) + all.skip(k + 1));
            }
            proof {
                k = k + 1;
            }
        }
        assert(k == all.len());
        assert(all.take(k) =~= all);
        assert(self.profiles@ =~= others(all, m));
        self.profiles.push(profile);
    }
}

// -------------------------------------------------------------------------- laws

proof fn lemma_others(profiles: Seq<ModelProfile>, model: Seq<char>)
    ensures
        forall|i: int| 0 <= i < others(profiles, model).len() ==> (#[trigger] others(profiles, model)[i]).model@
            != model,
    decreases profiles.len(),
{
    if profiles.len() > 0 {
        lemma_others(profiles.drop_last(), model);
    }
}

proof fn lemma_profile_of_push(profiles: Seq<ModelProfile>, p: ModelProfile)
    requires
        forall|i: int| 0 <= i < profiles.len() ==> (#[trigger] profiles[i]).model@ != p.model@,
    ensures
        profile_of(profiles.push(p), p.model@) == Some(p),
    decreases profiles.len(),
{
    let all = profiles.push(p);
    if profiles.len() > 0 {
        assert(all[0] == profiles[0]);
        let rest = profiles.drop_first();
        assert forall|i: int| 0 <= i < rest.len() implies (#[trigger] rest[i]).model@ != p.model@ by {
            assert(rest[i] == profiles[i + 1]);
        }
        lemma_profile_of_push(rest, p);
        assert(all.drop_first() =~= rest.push(p));
    }
}

/// Whether a profile is another model's.
pub open spec fn is_not_of(model: Seq<char>) -> spec_fn(ModelProfile) -> bool {
    |q: ModelProfile| q.model@ != model
}

/// The profiles of other models are those in the list that are not this model's.
proof fn lemma_others_filter(profiles: Seq<ModelProfile>, model: Seq<char>)
    ensures
        others(profiles, model) == profiles.filter(is_not_of(model)),
    decreases profiles.len(),
{
    reveal(Seq::filter);
    if profiles.len() > 0 {
        lemma_others_filter(profiles.drop_last(), model);
    }
}

/// A profile at the end is found only where none of that model stands before it.
proof fn lemma_profile_of_last(profiles: Seq<ModelProfile>, model: Seq<char>)
    requires
        profiles.len() > 0,
    ensures
        profile_of(profiles, model) == match profile_of(profiles.drop_last(), model) {
            Some(q) => Some(q),
            None => if profiles.last().model@ == model {
                Some(profiles.last())
            } else {
                None
            },
        },
    decreases profiles.len(),
{
    let head = profiles.drop_last();
    if head.len() == 0 {
        assert(profile_of(profiles.drop_first(), model) is None);
    } else {
        assert(head[0] == profiles[0]);
        if profiles[0].model@ != model {
            lemma_profile_of_last(profiles.drop_first(), model);
            assert(profiles.drop_first().drop_last() =~= head.drop_first());
        }
    }
}

proof fn lemma_others_found(profiles: Seq<ModelProfile>, gone: Seq<char>, model: Seq<char>)
    requires
        gone != model,
    ensures
        profile_of(others(profiles, gone), model) == profile_of(profiles, model),
    decreases profiles.len(),
{
    if profiles.len() > 0 {
        lemma_others_found(profiles.drop_last(), gone, model);
        lemma_profile_of_last(profiles, model);
        if profiles.last().model@ != gone {
            let kept = others(profiles, gone);
            lemma_profile_of_last(kept, model);
            assert(kept.drop_last() =~= others(profiles.drop_last(), gone));
        }
    }
}

/// What is put is what is found, and it is there once. Every other model's profile
/// is found as before, and those profiles stay in their order.
pub proof fn law_put_replaces(profiles: Seq<ModelProfile>, p: ModelProfile)
    ensures
        profile_of(others(profiles, p.model@).push(p), p.model@) == Some(p),
        forall|i: int|
            0 <= i < others(profiles, p.model@).len() ==> (#[trigger] others(profiles, p.model@)[i]).model@
                != p.model@,
        forall|m: Seq<char>|
            #![trigger profile_of(profiles, m)]
            m != p.model@ ==> profile_of(others(profiles, p.model@).push(p), m) == profile_of(profiles, m),
        others(profiles, p.model@) == profiles.filter(is_not_of(p.model@)),
{
    lemma_others(profiles, p.model@);
    lemma_profile_of_push(others(profiles, p.model@), p);
    lemma_others_filter(profiles, p.model@);
    assert forall|m: Seq<char>|
        #![trigger profile_of(profiles, m)]
        m != p.model@ implies profile_of(others(profiles, p.model@).push(p), m) == profile_of(profiles, m) by {
        let after = others(profiles, p.model@).push(p);
        lemma_others_found(profiles, p.model@, m);
        lemma_profile_of_last(after, m);
        assert(after.drop_last() =~= others(profiles, p.model@));
    }
}

/// The profile that is found is the first one of its model, and there is none only
/// where no profile is of it.
pub proof fn law_the_first_of_a_model_is_found(profiles: Seq<ModelProfile>, model: Seq<char>)
    ensures
        profile_of(profiles, model) matches Some(p) ==> exists|i: int|
            0 <= i < profiles.len() && #[trigger] profiles[i] == p && p.model@ == model && forall|j: int|
                0 <= j < i ==> (#[trigger] profiles[j]).model@ != model,
        profile_of(profiles, model) is None <==> forall|i: int|
            0 <= i < profiles.len() ==> (#[trigger] profiles[i]).model@ != model,
    decreases profiles.len(),
{
    if profiles.len() > 0 {
        let rest = profiles.drop_first();
        law_the_first_of_a_model_is_found(rest, model);
        if profiles[0].model@ != model {
            if profile_of(rest, model) is Some {
                let p = profile_of(rest, model)->0;
                let i = choose|i: int|
                    0 <= i < rest.len() && #[trigger] rest[i] == p && p.model@ == model && forall|j: int|
                        0 <= j < i ==> (#[trigger] rest[j]).model@ != model;
                assert forall|j: int| 0 <= j < i + 1 implies (#[trigger] profiles[j]).model@ != model by {
                    if j > 0 {
                        assert(rest[j - 1] == profiles[j]);
                    }
                }
                assert(profiles[i + 1] == p);
            } else {
                assert forall|i: int| 0 <= i < profiles.len() implies (#[trigger] profiles[i]).model@ != model by {
                    if i > 0 {
                        assert(rest[i - 1] == profiles[i]);
                    }
                }
            }
        } else {
            assert(profiles[0] == profile_of(profiles, model)->0);
        }
    }
}

/// A model that was not measured is credited with nothing.
pub proof fn law_what_was_not_measured_is_not_assumed(model: Seq<char>)
    ensures
        assumed(model).model == model,
        assumed(model).channel is TextOnly,
        assumed(model).edit_style is Replacement,
        !assumed(model).parallel_calls,
        !assumed(model).holds_format,
        assumed(model).max_output_chars == 2000,
        assumed(model).measured_at.len() == 0,
{
}

} // verus!
