//! Leveling: experience needed for the next level, what one gain of
//! experience does to a member's record, the level-up notice, and the
//! ranking of members for the leaderboard.

use vstd::prelude::*;
use crate::config::nested_get;
use crate::json::{Json, JsonView};
use crate::config::get_nested_key;
use crate::text::{push_signed_decimal, signed_decimal};

verus! {

/// `bson::oid::ObjectId`, carried through as an opaque value.
#[verifier::external_type_specification]
#[verifier::external_body]
pub struct ExObjectId(bson::oid::ObjectId);

/// A fresh document id (`ObjectId::new`).
///
/// Trusted, and nothing is claimed of the id: the crate builds it from the
/// clock, the process and a counter.
#[verifier::external_body]
fn fresh_object_id() -> bson::oid::ObjectId {
    bson::oid::ObjectId::new()
}

/// A member's leveling record in one server.
pub struct UserLeveling {
    pub _id: bson::oid::ObjectId,
    pub userid: String,
    pub experience: i64,
    pub level: i64,
    pub serverid: String,
}

/// `a / b` rounded toward zero, as Rust's integer division does.
pub open spec fn div_trunc(a: int, b: int) -> int {
    if a >= 0 {
        a / b
    } else {
        -((-a) / b)
    }
}

/// Experience that reaching the level after `level` takes:
/// `2 * (level + 1)^2 + 50 * level + 100`.
pub open spec fn exp_needed(level: int) -> int {
    2 * (level + 1) * (level + 1) + 50 * level + 100
}

/// Experience still missing for the next level:
/// `exp_needed(level) / 10 - experience`, the division rounded toward zero.
pub open spec fn exp_to_next_level(level: int, experience: int) -> int {
    div_trunc(exp_needed(level), 10) - experience
}

/// `x` fits in an `i64`.
pub open spec fn fits_i64(x: int) -> bool {
    i64::MIN <= x <= i64::MAX
}

/// Every intermediate value of the computation of `exp_to_next_level`
/// fits in an `i64`.
pub open spec fn exp_to_next_level_fits(level: int, experience: int) -> bool {
    &&& fits_i64(level + 1)
    &&& fits_i64(2 * (level + 1))
    &&& fits_i64(2 * (level + 1) * (level + 1))
    &&& fits_i64(50 * level)
    &&& fits_i64(2 * (level + 1) * (level + 1) + 50 * level)
    &&& fits_i64(exp_needed(level))
    &&& fits_i64(exp_to_next_level(level, experience))
}

/// Experience still missing before a member at `current_level` with
/// `current_experience` reaches the next level (zero or less when it is
/// reached).
pub fn calculate_exp_to_next_level(current_level: i64, current_experience: i64) -> (r: i64)
    requires
        exp_to_next_level_fits(current_level as int, current_experience as int),
    ensures
        r == exp_to_next_level(current_level as int, current_experience as int),
{
    let a: i64 = 2;
    let b: i64 = 50;
    let c: i64 = 100;
    let next_level = current_level + 1;
    let exp_needed = a * next_level * next_level + b * current_level + c;
    (exp_needed / 10) - current_experience
}

/// What one gain of experience does to a member's record.
pub struct LevelProgress {
    /// The member's level afterwards.
    pub new_level: i64,
    /// The experience to store: zero after a level-up.
    pub stored_experience: i64,
    /// Whether the member reached the next level.
    pub leveled_up: bool,
}

/// The inputs for which `level_progress` computes without overflow.
pub open spec fn level_progress_fits(level: int, experience: int, gain: int) -> bool {
    &&& fits_i64(experience + gain)
    &&& exp_to_next_level_fits(level, experience + gain)
}

/// Adds `exp_gain` to the member's experience; the member levels up when
/// nothing is missing any more for the next level, and the stored
/// experience then starts again from zero.
pub fn level_progress(current_level: i64, current_experience: i64, exp_gain: i64) -> (r: LevelProgress)
    requires
        level_progress_fits(current_level as int, current_experience as int, exp_gain as int),
    ensures
        r.leveled_up == (exp_to_next_level(current_level as int, current_experience + exp_gain) <= 0),
        r.new_level == if r.leveled_up { current_level + 1 } else { current_level as int },
        r.stored_experience == if r.leveled_up { 0 } else { current_experience + exp_gain },
{
    let new_experience = current_experience + exp_gain;
    let exp_to_next = calculate_exp_to_next_level(current_level, new_experience);
    let new_level = if exp_to_next <= 0 { current_level + 1 } else { current_level };
    let leveled_up = new_level > current_level;
    let stored_experience = if leveled_up { 0 } else { new_experience };
    LevelProgress { new_level, stored_experience, leveled_up }
}

/// Whether a member wants level-up messages: the configuration value at
/// `leveling.levelupmessaging` when it is a boolean, and yes otherwise.
pub open spec fn wants_level_up_messages(config: Option<JsonView>) -> bool {
    match config {
        Some(c) => match nested_get(c, "leveling.levelupmessaging"@) {
            Some(JsonView::Bool(b)) => b,
            _ => true,
        },
        None => true,
    }
}

/// Decides from the member's configuration document, if there is one,
/// whether to send level-up messages.
pub fn level_up_messaging_enabled(config: Option<&Json>) -> (r: bool)
    ensures
        r == wants_level_up_messages(match config {
            Some(c) => Some(c@),
            None => None,
        }),
{
    match config {
        Some(c) => match get_nested_key(c, "leveling.levelupmessaging") {
            Some(Json::Bool(b)) => b,
            _ => true,
        },
        None => true,
    }
}

/// The message sent to a member who leveled up.
pub struct LevelUpNotice {
    pub title: String,
    pub description: String,
}

/// The title of a level-up notice.
pub open spec fn level_up_title() -> Seq<char> {
    "🎉 Congratulations! 🎉"@
}

/// The text of a level-up notice.
pub open spec fn level_up_description(user_id: Seq<char>, new_level: int, channel_url: Seq<char>) -> Seq<char> {
    "<@!"@ + user_id + ">, you leveled up to level "@ + signed_decimal(new_level) + " in "@ + channel_url
        + "! 🎊\n\n-# If you don't want these messages, run `/userconf set` and set `leveling.levelupmessaging` to `false`"@
}

/// Builds the notice for a member who reached `new_level` in the channel at
/// `channel_url`.
pub fn level_up_notice(user_id: &str, new_level: i64, channel_url: &str) -> (r: LevelUpNotice)
    ensures
        r.title@ == level_up_title(),
        r.description@ == level_up_description(user_id@, new_level as int, channel_url@),
{
    let title = String::from_str("🎉 Congratulations! 🎉");
    let mut d = String::from_str("<@!");
    d.append(user_id);
    d.append(">, you leveled up to level ");
    push_signed_decimal(&mut d, new_level);
    d.append(" in ");
    d.append(channel_url);
    d.append(
        "! 🎊\n\n-# If you don't want these messages, run `/userconf set` and set `leveling.levelupmessaging` to `false`",
    );
    LevelUpNotice { title, description: d }
}

/// The stored experience of the first matching record, zero when there is
/// none (what a member has before any record exists).
pub fn first_experience(users: &Vec<UserLeveling>) -> (r: i64)
    ensures
        r == if users@.len() > 0 { users@[0].experience } else { 0 },
{
    if users.len() > 0 {
        users[0].experience
    } else {
        0
    }
}

/// The level of the first matching record, zero when there is none.
pub fn first_level(users: &Vec<UserLeveling>) -> (r: i64)
    ensures
        r == if users@.len() > 0 { users@[0].level } else { 0 },
{
    if users.len() > 0 {
        users[0].level
    } else {
        0
    }
}

/// The record to write for a member: it keeps the id of the existing record
/// and is written over it, or it is new.
pub struct MemberWrite {
    pub record: UserLeveling,
    /// Whether the record replaces an existing one.
    pub replace_existing: bool,
}

/// The record that stores a member's new experience and level, reusing the
/// id of the member's existing record when there is one.
pub fn member_write(
    existing: Option<&UserLeveling>,
    member_id: &str,
    server_id: &str,
    new_experience: i64,
    new_level: i64,
) -> (r: MemberWrite)
    ensures
        r.record.userid@ == member_id@,
        r.record.serverid@ == server_id@,
        r.record.experience == new_experience,
        r.record.level == new_level,
        r.replace_existing == existing is Some,
        existing matches Some(e) ==> r.record._id == e._id,
{
    let (id, replace_existing) = match existing {
        Some(e) => (e._id, true),
        None => (fresh_object_id(), false),
    };
    MemberWrite {
        record: UserLeveling {
            _id: id,
            userid: String::from_str(member_id),
            experience: new_experience,
            level: new_level,
            serverid: String::from_str(server_id),
        },
        replace_existing,
    }
}


/// `a` ranks strictly before `b`: a higher level, or the same level and
/// more experience.
pub open spec fn ranks_before(a: UserLeveling, b: UserLeveling) -> bool {
    a.level > b.level || (a.level == b.level && a.experience > b.experience)
}

/// Where `u` goes in an already ranked list: after every member that does
/// not rank below it, so that members of equal rank keep their order.
pub open spec fn rank_slot(sorted: Seq<UserLeveling>, u: UserLeveling) -> nat
    decreases sorted.len(),
{
    if sorted.len() > 0 && ranks_before(u, sorted.last()) {
        rank_slot(sorted.drop_last(), u)
    } else {
        sorted.len()
    }
}

/// `sorted` with `u` placed at its rank.
pub open spec fn insert_ranked(sorted: Seq<UserLeveling>, u: UserLeveling) -> Seq<UserLeveling> {
    sorted.insert(rank_slot(sorted, u) as int, u)
}

/// The members ranked by level, then experience, both descending; members
/// of equal rank keep the order they came in (a stable sort).
pub open spec fn ranked(s: Seq<UserLeveling>) -> Seq<UserLeveling>
    decreases s.len(),
{
    if s.len() == 0 {
        s
    } else {
        insert_ranked(ranked(s.drop_last()), s.last())
    }
}

/// The slice `[x..=y]` of the ranking, cut at its end.
pub open spec fn ranked_range(s: Seq<UserLeveling>, x: nat, y: nat) -> Seq<UserLeveling> {
    let r = ranked(s);
    if x >= r.len() {
        Seq::empty()
    } else {
        r.subrange(x as int, if y + 1 < r.len() { (y + 1) as int } else { r.len() as int })
    }
}

proof fn lemma_rank_slot(sorted: Seq<UserLeveling>, u: UserLeveling)
    ensures
        rank_slot(sorted, u) <= sorted.len(),
        forall|i: int| rank_slot(sorted, u) <= i < sorted.len() ==> ranks_before(u, #[trigger] sorted[i]),
        rank_slot(sorted, u) > 0 ==> !ranks_before(u, sorted[rank_slot(sorted, u) - 1]),
    decreases sorted.len(),
{
    if sorted.len() > 0 && ranks_before(u, sorted.last()) {
        lemma_rank_slot(sorted.drop_last(), u);
        assert forall|i: int| rank_slot(sorted, u) <= i < sorted.len() implies ranks_before(u, #[trigger] sorted[i]) by {
            if i < sorted.len() - 1 {
                assert(sorted[i] == sorted.drop_last()[i]);
            }
        }
        if rank_slot(sorted, u) > 0 {
            assert(sorted[rank_slot(sorted, u) - 1] == sorted.drop_last()[rank_slot(sorted, u) - 1]);
        }
    }
}

/// No member of the sequence ranks strictly before an earlier one.
pub open spec fn is_ranked(s: Seq<UserLeveling>) -> bool {
    forall|i: int, j: int| 0 <= i < j < s.len() ==> !ranks_before(#[trigger] s[j], #[trigger] s[i])
}

proof fn lemma_ranked_sorted(s: Seq<UserLeveling>)
    ensures
        is_ranked(ranked(s)),
        ranked(s).to_multiset() == s.to_multiset(),
        ranked(s).len() == s.len(),
    decreases s.len(),
{
    broadcast use vstd::seq_lib::group_to_multiset_ensures;
    if s.len() > 0 {
        let t = ranked(s.drop_last());
        lemma_ranked_sorted(s.drop_last());
        let u = s.last();
        let p = rank_slot(t, u) as int;
        lemma_rank_slot(t, u);
        let r = t.insert(p, u);
        assert forall|i: int, j: int| 0 <= i < j < r.len() implies !ranks_before(#[trigger] r[j], #[trigger] r[i]) by {
            if j < p {
                assert(r[i] == t[i] && r[j] == t[j]);
            } else if j == p {
                assert(r[j] == u);
                assert(r[i] == t[i]);
                if i < p - 1 {
                    assert(!ranks_before(t[p - 1], t[i]));
                }
            } else if i == p {
                assert(r[i] == u && r[j] == t[j - 1]);
            } else if i < p {
                assert(r[i] == t[i] && r[j] == t[j - 1]);
            } else {
                assert(r[i] == t[i - 1] && r[j] == t[j - 1]);
            }
        }
        vstd::seq_lib::lemma_seq_union_to_multiset_commutative(t.take(p), t.skip(p));
        assert(r =~= t.take(p).push(u) + t.skip(p));
        assert(t =~= t.take(p) + t.skip(p));
        vstd::seq_lib::lemma_multiset_commutative(t.take(p).push(u), t.skip(p));
        vstd::seq_lib::lemma_multiset_commutative(t.take(p), t.skip(p));
        assert(s =~= s.drop_last().push(u));
        assert(r.to_multiset() =~= s.to_multiset());
    }
}

/// The ranking is ordered by level, then experience, both descending, and
/// holds exactly the members it was given.
pub proof fn law_ranking_sorted_permutation(s: Seq<UserLeveling>)
    ensures
        is_ranked(ranked(s)),
        ranked(s).to_multiset() == s.to_multiset(),
{
    lemma_ranked_sorted(s);
}

/// In the ranking a member of higher level comes before any member of lower
/// level, whatever their experience; experience only orders members of the
/// same level, more first. It holds exactly the members it was given.
pub proof fn law_ranking_by_level_then_experience(s: Seq<UserLeveling>)
    ensures
        ranked(s).len() == s.len(),
        ranked(s).to_multiset() == s.to_multiset(),
        forall|i: int, j: int|
            0 <= i < j < ranked(s).len() ==> (#[trigger] ranked(s)[i]).level > (#[trigger] ranked(s)[j]).level || (
            ranked(s)[i].level == ranked(s)[j].level && ranked(s)[i].experience >= ranked(s)[j].experience),
{
    lemma_ranked_sorted(s);
    let r = ranked(s);
    assert forall|i: int, j: int| 0 <= i < j < r.len() implies (#[trigger] r[i]).level > (#[trigger] r[j]).level
        || (r[i].level == r[j].level && r[i].experience >= r[j].experience) by {
        assert(!ranks_before(r[j], r[i]));
    }
}

/// Ranks the members by level, then experience, both descending, keeping
/// the given order among members of equal rank.
pub fn rank_members(users: Vec<UserLeveling>) -> (r: Vec<UserLeveling>)
    ensures
        r@ == ranked(users@),
        forall|i: int, j: int|
            0 <= i < j < r@.len() ==> (#[trigger] r@[i]).level > (#[trigger] r@[j]).level || (r@[i].level
                == r@[j].level && r@[i].experience >= r@[j].experience),
{
    proof {
        law_ranking_by_level_then_experience(users@);
    }
    let ghost orig = users@;
    let n = users.len();
    assert(orig.len() == n);
    let mut rest = users;
    let mut out: Vec<UserLeveling> = Vec::new();
    let mut k: usize = 0;
    while rest.len() > 0
        invariant
            k + rest@.len() == orig.len(),
            orig.len() <= usize::MAX,
            rest@ == orig.skip(k as int),
            out@ == ranked(orig.take(k as int)),
        decreases rest.len(),
    {
        let u = rest.remove(0);
        let ghost taken = orig.take(k + 1);
        assert(taken.drop_last() =~= orig.take(k as int));
        assert(taken.last() == u);
        let mut p: usize = out.len();
        assert(out@.take(p as int) =~= out@);
        while p > 0 && (u.level > out[p - 1].level || (u.level == out[p - 1].level && u.experience
            > out[p - 1].experience))
            invariant
                p <= out.len(),
                rank_slot(out@, u) == rank_slot(out@.take(p as int), u),
            decreases p,
        {
            let ghost q = out@.take(p as int);
            assert(q.drop_last() =~= out@.take(p - 1));
            p = p - 1;
        }
        assert(rank_slot(out@.take(p as int), u) == p);
        out.insert(p, u);
        assert(rest@ =~= orig.skip(k + 1));
        k = k + 1;
    }
    assert(orig.take(k as int) =~= orig);
    out
}

/// The message for a range whose end comes before its start.
pub open spec fn invalid_range_message() -> Seq<char> {
    "Invalid indices: x must be <= y"@
}

/// Refuses a leaderboard range `[x..=y]` whose end comes before its start.
pub fn check_range(x: usize, y: usize) -> (r: Result<(), String>)
    ensures
        y < x ==> (r matches Err(m) && m@ == invalid_range_message()),
        y >= x ==> r is Ok,
{
    if y < x {
        Err(String::from_str("Invalid indices: x must be <= y"))
    } else {
        Ok(())
    }
}

/// The members at ranks `x` to `y` (both included, counted from zero), as
/// many as there are.
pub fn ranked_members_in_range(users: Vec<UserLeveling>, x: usize, y: usize) -> (r: Vec<UserLeveling>)
    requires
        x <= y,
    ensures
        r@ == ranked_range(users@, x as nat, y as nat),
{
    let ghost orig = users@;
    proof {
        lemma_ranked_sorted(orig);
    }
    let mut ranked_users = rank_members(users);
    if x >= ranked_users.len() {
        return Vec::new();
    }
    let end = if y < ranked_users.len() - 1 { y + 1 } else { ranked_users.len() };
    ranked_users.truncate(end);
    let ghost full = ranked_users@;
    let tail = ranked_users.split_off(x);
    assert(tail@ =~= full.subrange(x as int, end as int));
    tail
}

} // verus!
