//! The music commands' decisions: what to ask Lavalink for, which loaded
//! tracks to queue and how to announce them, and which voice channel to
//! join.

use vstd::prelude::*;
use crate::text::chars_of;

verus! {

/// `lavalink_rs::error::LavalinkError`, carried through as an opaque value.
#[verifier::external_type_specification]
#[verifier::external_body]
pub struct ExLavalinkError(lavalink_rs::error::LavalinkError);

/// `SearchEngines::YouTubeMusic.to_query(term)`.
///
/// Trusted: for YouTube Music the crate returns `Ok` of the engine's prefix
/// `ytmsearch`, a colon and the term; the contract states that.
#[verifier::external_body]
fn youtube_music_query(term: &str) -> (r: Result<String, lavalink_rs::error::LavalinkError>)
    ensures
        r is Ok,
        r->Ok_0@ == "ytmsearch:"@ + term@,
{
    lavalink_rs::model::search::SearchEngines::YouTubeMusic.to_query(term)
}

/// `s` starts with `prefix`.
pub open spec fn starts_with(s: Seq<char>, prefix: Seq<char>) -> bool {
    prefix.len() <= s.len() && s.take(prefix.len() as int) == prefix
}

/// What to load for a play request: a term starting with `http` is taken as
/// a URL, anything else is searched on YouTube Music.
pub open spec fn play_query_for(term: Seq<char>) -> Seq<char> {
    if starts_with(term, "http"@) {
        term
    } else {
        "ytmsearch:"@ + term
    }
}

/// The query to load for a play request.
pub fn play_query(term: String) -> (r: String)
    ensures
        r@ == play_query_for(term@),
{
    let cs = chars_of(term.as_str());
    let h = chars_of("http");
    proof {
        reveal_strlit("http");
    }
    let is_url = cs.len() >= 4 && cs[0] == h[0] && cs[1] == h[1] && cs[2] == h[2] && cs[3] == h[3];
    assert(is_url == starts_with(term@, "http"@)) by {
        if cs.len() >= 4 {
            assert(is_url ==> cs@.take(4) =~= h@);
            assert(cs@.take(4) =~= h@ ==> (cs@.take(4)[0] == h@[0] && cs@.take(4)[1] == h@[1]
                && cs@.take(4)[2] == h@[2] && cs@.take(4)[3] == h@[3]));
        }
    }
    if is_url {
        term
    } else {
        match youtube_music_query(term.as_str()) {
            Ok(q) => q,
            Err(_) => {
                assert(false);
                term
            },
        }
    }
}

/// What the announcement of a queued track shows.
pub struct TrackInfo {
    pub author: String,
    pub title: String,
    pub uri: Option<String>,
}

/// What a load request returned, as far as the play command reads it.
pub enum LoadSummary {
    /// One track.
    Track(TrackInfo),
    /// Search results, best first.
    Search(Vec<TrackInfo>),
    /// A playlist, with its name and the number of its tracks.
    Playlist { name: String, track_count: usize },
    /// Nothing, or an error.
    Other,
}

/// What the play command does with a load result.
pub enum QueuePlan {
    /// Queue the first `count` loaded tracks (all of a playlist, the first
    /// search result, the single track) and say `announcement`.
    Queue { count: usize, announcement: String },
    /// Queue nothing; the command reports what was loaded instead.
    Report,
}

/// The announcement of one track: `Added to queue: [author - title](<uri>)`,
/// or without the link when the track has no URI.
pub open spec fn track_announcement(t: TrackInfo) -> Seq<char> {
    match t.uri {
        Some(u) => "Added to queue: ["@ + t.author@ + " - "@ + t.title@ + "](<"@ + u@ + ">)"@,
        None => "Added to queue: "@ + t.author@ + " - "@ + t.title@,
    }
}

/// A load result the play command can handle: search results are not
/// empty.
pub open spec fn plannable(load: LoadSummary) -> bool {
    load matches LoadSummary::Search(v) ==> v@.len() > 0
}

/// The announcement of a track.
fn announce_track(t: &TrackInfo) -> (r: String)
    ensures
        r@ == track_announcement(*t),
{
    match &t.uri {
        Some(u) => {
            let mut s = String::from_str("Added to queue: [");
            s.append(t.author.as_str());
            s.append(" - ");
            s.append(t.title.as_str());
            s.append("](<");
            s.append(u.as_str());
            s.append(">)");
            s
        },
        None => {
            let mut s = String::from_str("Added to queue: ");
            s.append(t.author.as_str());
            s.append(" - ");
            s.append(t.title.as_str());
            s
        },
    }
}

/// Decides what to queue from a load result and how to announce it.
pub fn plan_queue(load: &LoadSummary) -> (r: QueuePlan)
    requires
        plannable(*load),
    ensures
        match *load {
            LoadSummary::Track(t) => r matches QueuePlan::Queue { count, announcement } && count == 1
                && announcement@ == track_announcement(t),
            LoadSummary::Search(v) => r matches QueuePlan::Queue { count, announcement } && count == 1
                && announcement@ == track_announcement(v@[0]),
            LoadSummary::Playlist { name, track_count } => r matches QueuePlan::Queue {
                count,
                announcement,
            } && count == track_count && announcement@ == "Added playlist to queue: "@ + name@,
            LoadSummary::Other => r is Report,
        },
{
    match load {
        LoadSummary::Track(t) => QueuePlan::Queue { count: 1, announcement: announce_track(t) },
        LoadSummary::Search(v) => QueuePlan::Queue { count: 1, announcement: announce_track(&v[0]) },
        LoadSummary::Playlist { name, track_count } => {
            let mut s = String::from_str("Added playlist to queue: ");
            s.append(name.as_str());
            QueuePlan::Queue { count: *track_count, announcement: s }
        },
        LoadSummary::Other => QueuePlan::Report,
    }
}

/// The voice channel to join: the one given, else the one the member is in;
/// none when neither is known.
pub fn voice_channel_to_join(given: Option<u64>, members_channel: Option<u64>) -> (r: Option<u64>)
    ensures
        r == match given {
            Some(c) => Some(c),
            None => members_channel,
        },
{
    match given {
        Some(c) => Some(c),
        None => members_channel,
    }
}

} // verus!
