//! State the bot keeps between gateway events: which members have already
//! earned experience from a message in the current minute, and who sits in
//! which voice channel.

use vstd::prelude::*;
use std::collections::{HashMap, HashSet};
use crate::text::{decimal, push_decimal};

verus! {

broadcast use vstd::std_specs::hash::group_hash_axioms;

/// Members who already earned experience from a message since the last
/// reset (the bot resets it every minute).
pub struct MessageGate {
    seen: HashSet<u64>,
}

impl View for MessageGate {
    type V = Set<u64>;

    closed spec fn view(&self) -> Set<u64> {
        self.seen@
    }
}

/// The answer to a member's message under the members `seen` so far: it
/// earns experience exactly when none of theirs did yet.
pub open spec fn credit_granted(seen: Set<u64>, user_id: u64) -> bool {
    !seen.contains(user_id)
}

/// The members held back after a member's message: that member joins them.
pub open spec fn after_credit(seen: Set<u64>, user_id: u64) -> Set<u64> {
    seen.insert(user_id)
}

/// The members held back at the start of a window: none.
pub open spec fn fresh_window() -> Set<u64> {
    Set::empty()
}

impl MessageGate {
    /// A gate through which nobody has passed yet.
    pub fn new() -> (r: MessageGate)
        ensures
            r@ == fresh_window(),
    {
        MessageGate { seen: HashSet::new() }
    }

    /// Lets a member's message earn experience unless one of theirs already
    /// did since the last reset; the member is marked either way.
    pub fn try_credit(&mut self, user_id: u64) -> (first: bool)
        ensures
            first == credit_granted(old(self)@, user_id),
            final(self)@ == after_credit(old(self)@, user_id),
    {
        if self.seen.contains(&user_id) {
            assert(old(self)@.insert(user_id) =~= old(self)@);
            return false;
        }
        self.seen.insert(user_id);
        true
    }

    /// Starts a new window: everybody may earn experience again.
    pub fn reset(&mut self)
        ensures
            final(self)@ == fresh_window(),
    {
        self.seen.clear();
    }
}

/// A member's message earns experience at most once per window, over the
/// contracts of `MessageGate`: after `try_credit` for a member, a second
/// `try_credit` for that member is refused, while another member's answer
/// is unchanged; after `reset` (or in a new gate) every member is let
/// through.
pub proof fn law_credit_once_per_window(gate: MessageGate, user_id: u64, other: u64)
    ensures
        !credit_granted(after_credit(gate@, user_id), user_id),
        other != user_id ==> credit_granted(after_credit(gate@, user_id), other) == credit_granted(gate@, other),
        credit_granted(fresh_window(), user_id),
{
}

/// The server whose message gains experience: none for a bot's message or a
/// message outside a server.
pub fn message_guild(author_is_bot: bool, guild_id: Option<u64>) -> (r: Option<u64>)
    ensures
        r == if author_is_bot { None } else { guild_id },
{
    if author_is_bot {
        None
    } else {
        guild_id
    }
}

/// Where a member sits in voice, and how.
#[derive(Debug, Clone, Copy, PartialEq, Eq, Structural)]
pub struct VoiceEntry {
    pub guild_id: u64,
    pub channel_id: u64,
    pub deaf: bool,
    pub mute: bool,
    pub self_stream: Option<bool>,
}

/// A member in voice earns experience when they can hear and speak, or
/// while they stream.
pub open spec fn earns_voice_exp(e: VoiceEntry) -> bool {
    (!e.deaf && !e.mute) || e.self_stream == Some(true)
}

/// Who earns voice experience: a member who can hear and speak always
/// does, a streaming member always does, and a member who is deafened or
/// muted and not streaming never does.
pub proof fn law_voice_earning_rule(e: VoiceEntry)
    ensures
        !e.deaf && !e.mute ==> earns_voice_exp(e),
        e.self_stream == Some(true) ==> earns_voice_exp(e),
        (e.deaf || e.mute) && e.self_stream != Some(true) ==> !earns_voice_exp(e),
{
}

/// The members in voice channels, by user id.
pub struct VoiceRoster {
    members: HashMap<u64, VoiceEntry>,
}

impl View for VoiceRoster {
    type V = Map<u64, VoiceEntry>;

    closed spec fn view(&self) -> Map<u64, VoiceEntry> {
        self.members@
    }
}

impl VoiceRoster {
    /// Nobody in voice.
    pub fn new() -> (r: VoiceRoster)
        ensures
            r@ == Map::<u64, VoiceEntry>::empty(),
    {
        VoiceRoster { members: HashMap::new() }
    }

    /// Records a voice state update: a member in a channel of a server is
    /// recorded with the new state; a member who left is forgotten.
    pub fn update(
        &mut self,
        user_id: u64,
        guild_id: Option<u64>,
        channel_id: Option<u64>,
        deaf: bool,
        mute: bool,
        self_stream: Option<bool>,
    )
        ensures
            match (guild_id, channel_id) {
                (Some(g), Some(c)) => final(self)@ == old(self)@.insert(
                    user_id,
                    VoiceEntry { guild_id: g, channel_id: c, deaf, mute, self_stream },
                ),
                _ => final(self)@ == old(self)@.remove(user_id),
            },
    {
        match (guild_id, channel_id) {
            (Some(g), Some(c)) => {
                self.members.insert(user_id, VoiceEntry { guild_id: g, channel_id: c, deaf, mute, self_stream });
            },
            _ => {
                self.members.remove(&user_id);
            },
        }
    }

    /// The members in voice who earn experience now, each once with their
    /// entry, in the order the map is walked.
    pub fn earning_members(&self) -> (r: Vec<(u64, VoiceEntry)>)
        ensures
            forall|i: int| 0 <= i < r@.len() ==> self@.contains_key(#[trigger] r@[i].0) && self@[r@[i].0]
                == r@[i].1 && earns_voice_exp(r@[i].1),
            forall|k: u64| #[trigger] self@.contains_key(k) && earns_voice_exp(self@[k]) ==> exists|i: int|
                0 <= i < r@.len() && r@[i].0 == k,
            forall|i: int, j: int| 0 <= i < j < r@.len() ==> #[trigger] r@[i].0 != #[trigger] r@[j].0,
            forall|i: int| 0 <= i < r@.len() ==> (!(#[trigger] r@[i]).1.deaf && !r@[i].1.mute) || r@[i].1.self_stream
                == Some(true),
    {
        let mut out: Vec<(u64, VoiceEntry)> = Vec::new();
        let ghost mut pos: Seq<int> = Seq::empty();
        for (k, v) in it: self.members.iter()
            invariant
                it.seq().no_duplicates(),
                forall|i: int| 0 <= i < out@.len() ==> self@.contains_key(#[trigger] out@[i].0) && self@[out@[i].0]
                    == out@[i].1 && earns_voice_exp(out@[i].1),
                forall|j: int| 0 <= j < it.index() && earns_voice_exp(*it.seq()[j].1) ==> exists|i: int|
                    0 <= i < out@.len() && out@[i].0 == *(#[trigger] it.seq()[j]).0,
                pos.len() == out@.len(),
                forall|i: int| 0 <= i < out@.len() ==> 0 <= #[trigger] pos[i] < it.index() && out@[i].0
                    == *it.seq()[pos[i]].0,
                forall|i: int, j: int| 0 <= i < j < out@.len() ==> #[trigger] out@[i].0 != #[trigger] out@[j].0,
        {
            assert(it.index() < it.seq().len());
            assert(it.seq()[it.index() as int] == (k, v));
            assert(self.members@.contains_key(*k) && self.members@[*k] == *v);
            let streaming = match v.self_stream {
                Some(b) => b,
                None => false,
            };
            let earns = (!v.deaf && !v.mute) || streaming;
            let ghost before = out@;
            let ghost pos_before = pos;
            if earns {
                assert forall|i: int| 0 <= i < before.len() implies before[i].0 != *k by {
                    let a = pos_before[i];
                    let b = it.index();
                    assert(self.members@.contains_key(*it.seq()[a].0));
                    assert(self.members@[*it.seq()[a].0] == *it.seq()[a].1);
                    if before[i].0 == *k {
                        assert(it.seq()[a] == it.seq()[b]);
                        assert(a != b);
                    }
                }
                out.push((*k, *v));
                proof {
                    pos = pos.push(it.index());
                }
                assert(out@[out@.len() - 1].0 == *k);
                assert forall|i: int| 0 <= i < out@.len() implies 0 <= #[trigger] pos[i] < it.index() + 1
                    && out@[i].0 == *it.seq()[pos[i]].0 by {
                    if i < before.len() {
                        assert(out@[i] == before[i]);
                        assert(pos[i] == pos_before[i]);
                    }
                }
                assert forall|i: int, j: int| 0 <= i < j < out@.len() implies #[trigger] out@[i].0
                    != #[trigger] out@[j].0 by {
                    assert(out@[i] == before[i]);
                    if j < before.len() {
                        assert(out@[j] == before[j]);
                    }
                }
            }
            assert forall|j: int| 0 <= j < it.index() + 1 && earns_voice_exp(*it.seq()[j].1) implies exists|i: int|
                0 <= i < out@.len() && out@[i].0 == *(#[trigger] it.seq()[j]).0 by {
                if j < it.index() {
                    let i = choose|i: int| 0 <= i < before.len() && before[i].0 == *it.seq()[j].0;
                    assert(out@[i] == before[i]);
                } else {
                    assert(out@[out@.len() - 1].0 == *k);
                }
            }
        }
        assert forall|i: int| 0 <= i < out@.len() implies (!(#[trigger] out@[i]).1.deaf && !out@[i].1.mute)
            || out@[i].1.self_stream == Some(true) by {
            assert(self@.contains_key(out@[i].0));
        }
        out
    }
}

/// The link to a channel of a server.
pub open spec fn channel_link(guild_id: nat, channel_id: nat) -> Seq<char> {
    "https://discord.com/channels/"@ + decimal(guild_id) + "/"@ + decimal(channel_id)
}

/// Builds the link to a channel of a server.
pub fn channel_url(guild_id: u64, channel_id: u64) -> (r: String)
    ensures
        r@ == channel_link(guild_id as nat, channel_id as nat),
{
    let mut s = String::from_str("https://discord.com/channels/");
    push_decimal(&mut s, guild_id);
    s.append("/");
    push_decimal(&mut s, channel_id);
    s
}

} // verus!
