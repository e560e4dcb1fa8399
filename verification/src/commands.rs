//! What the slash commands answer: the configuration commands' edits and
//! replies, the leaderboard and the level card.

use vstd::prelude::*;
use crate::config::{nested_set, path_keys, set_nested_key, tree_set_path};
use crate::json::{json_tree, lemma_view_of_tree, tree_view, Json, JsonTree, JsonView};
use crate::json_text::{opt_tree_view, parse_json, parsed_json};
use crate::text::{decimal, push_decimal, push_signed_decimal, signed_decimal};

verus! {

/// The value a `set` command stores: the input read as JSON when it is
/// JSON, else the input as a JSON string.
pub open spec fn config_input_value(parsed: Option<JsonView>, raw: Seq<char>) -> JsonView {
    match parsed {
        Some(v) => v,
        None => JsonView::Str(raw),
    }
}

/// The shape of the value a `set` command stores.
pub open spec fn config_input_tree(parsed: Option<JsonTree>, raw: Seq<char>) -> JsonTree {
    match parsed {
        Some(t) => t,
        None => JsonTree::Str(raw),
    }
}

/// The reply to a `set` command whose path is refused.
pub open spec fn invalid_path_reply(key: Seq<char>, err: Seq<char>) -> Seq<char> {
    "Invalid path: "@ + key + " ("@ + err + ")"@
}

/// Applies a `set` command to a configuration document: `parsed` is the
/// value text read as JSON, if it is JSON, and `raw` the text itself. On a
/// refused path the document stays as it was and the reply is returned.
pub fn apply_config_set(config: &mut Json, key: &str, parsed: Option<Json>, raw: &str) -> (r: Result<(), String>)
    ensures
        match nested_set(old(config)@, key@, config_input_value(
            match parsed {
                Some(v) => Some(v@),
                None => None,
            },
            raw@,
        )) {
            Ok(j) => r is Ok && final(config)@ == j,
            Err(e) => r matches Err(msg) && msg@ == invalid_path_reply(key@, e) && final(config)@ == old(
                config,
            )@,
        },
        r is Ok ==> json_tree(*final(config)) == tree_set_path(
            json_tree(*old(config)),
            path_keys(key@),
            match parsed {
                Some(v) => json_tree(v),
                None => JsonTree::Str(raw@),
            },
        ),
        r is Err ==> *final(config) == *old(config),
{
    let value = match parsed {
        Some(v) => v,
        None => Json::Str(String::from_str(raw)),
    };
    match set_nested_key(config, key, value) {
        Ok(()) => Ok(()),
        Err(e) => {
            let mut m = String::from_str("Invalid path: ");
            m.append(key);
            m.append(" (");
            m.append(e.as_str());
            m.append(")");
            Err(m)
        },
    }
}

/// Applies a `set` command as typed: the value text is read as JSON when it
/// is JSON, and stored as a string otherwise.
pub fn config_set_from_text(config: &mut Json, key: &str, text: &str) -> (r: Result<(), String>)
    ensures
        match nested_set(old(config)@, key@, config_input_value(opt_tree_view(parsed_json(text@)), text@)) {
            Ok(j) => r is Ok && final(config)@ == j,
            Err(e) => r matches Err(msg) && msg@ == invalid_path_reply(key@, e) && final(config)@ == old(
                config,
            )@,
        },
        r is Ok ==> json_tree(*final(config)) == tree_set_path(
            json_tree(*old(config)),
            path_keys(key@),
            config_input_tree(parsed_json(text@), text@),
        ),
        r is Err ==> *final(config) == *old(config),
{
    let parsed = parse_json(text);
    proof {
        if let Some(j) = &parsed {
            lemma_view_of_tree(*j);
        }
    }
    apply_config_set(config, key, parsed, text)
}

/// The reply to a `setraw` command whose text is not JSON.
pub open spec fn invalid_json_reply() -> Seq<char> {
    "Invalid JSON format. Please provide a valid JSON string."@
}

/// Reads the whole configuration a `setraw` command gives: the text read as
/// JSON, or the reply refusing it.
pub fn raw_config_from_text(text: &str) -> (r: Result<Json, String>)
    ensures
        match parsed_json(text@) {
            Some(t) => r matches Ok(j) && json_tree(j) == t && j@ == tree_view(t),
            None => r matches Err(m) && m@ == invalid_json_reply(),
        },
{
    match parse_json(text) {
        Some(j) => {
            proof {
                lemma_view_of_tree(j);
            }
            Ok(j)
        },
        None => Err(String::from_str("Invalid JSON format. Please provide a valid JSON string.")),
    }
}

/// The reply showing the value at a key, given the value's pretty JSON.
pub open spec fn value_reply(key: Seq<char>, pretty: Seq<char>) -> Seq<char> {
    "Value for `"@ + key + "`:\n```json\n"@ + pretty + "\n```"@
}

/// Shows the value found at a key.
pub fn config_value_reply(key: &str, pretty: &str) -> (r: String)
    ensures
        r@ == value_reply(key@, pretty@),
{
    let mut s = String::from_str("Value for `");
    s.append(key);
    s.append("`:\n```json\n");
    s.append(pretty);
    s.append("\n```");
    s
}

/// The reply when no value is found at a key.
pub open spec fn not_found_reply(key: Seq<char>) -> Seq<char> {
    "Key `"@ + key + "` not found."@
}

/// Says that nothing was found at a key.
pub fn config_not_found_reply(key: &str) -> (r: String)
    ensures
        r@ == not_found_reply(key@),
{
    let mut s = String::from_str("Key `");
    s.append(key);
    s.append("` not found.");
    s
}

/// The reply showing a whole configuration, given its pretty JSON.
pub open spec fn raw_reply(pretty: Seq<char>) -> Seq<char> {
    "Raw configuration:\n```json\n"@ + pretty + "\n```"@
}

/// Shows a whole configuration.
pub fn config_raw_reply(pretty: &str) -> (r: String)
    ensures
        r@ == raw_reply(pretty@),
{
    let mut s = String::from_str("Raw configuration:\n```json\n");
    s.append(pretty);
    s.append("\n```");
    s
}

/// One row of the leaderboard: a member id, level and experience.
pub struct LeaderboardRow {
    pub user_id: u64,
    pub level: i64,
    pub experience: i64,
}

/// The line of one member on the leaderboard.
pub open spec fn leaderboard_line(row: LeaderboardRow) -> Seq<char> {
    "<@"@ + decimal(row.user_id as nat) + "> - Level: "@ + signed_decimal(row.level as int) + ", Experience: "@
        + signed_decimal(row.experience as int) + "\n"@
}

/// The lines of the given members, in order.
pub open spec fn leaderboard_lines(rows: Seq<LeaderboardRow>) -> Seq<char>
    decreases rows.len(),
{
    if rows.len() == 0 {
        Seq::empty()
    } else {
        leaderboard_lines(rows.drop_last()) + leaderboard_line(rows.last())
    }
}

/// The heading of a leaderboard page.
pub open spec fn leaderboard_heading() -> Seq<char> {
    "🏆 **Top 10 Users** 🏆\n\n"@
}

/// The text of a leaderboard page: its heading, then one line per member.
pub fn leaderboard_description(rows: &Vec<LeaderboardRow>) -> (r: String)
    ensures
        r@ == leaderboard_heading() + leaderboard_lines(rows@),
{
    let mut s = String::from_str("🏆 **Top 10 Users** 🏆\n\n");
    let mut i: usize = 0;
    while i < rows.len()
        invariant
            i <= rows.len(),
            s@ == leaderboard_heading() + leaderboard_lines(rows@.take(i as int)),
        decreases rows.len() - i,
    {
        let row = &rows[i];
        let ghost before = s@;
        s.append("<@");
        push_decimal(&mut s, row.user_id);
        s.append("> - Level: ");
        push_signed_decimal(&mut s, row.level);
        s.append(", Experience: ");
        push_signed_decimal(&mut s, row.experience);
        s.append("\n");
        assert(rows@.take(i + 1).drop_last() =~= rows@.take(i as int));
        assert(rows@.take(i + 1).last() == rows@[i as int]);
        assert(s@ =~= before + leaderboard_line(rows@[i as int]));
        i = i + 1;
    }
    assert(rows@.take(rows.len() as int) =~= rows@);
    s
}

/// The heading of a member's level card.
pub open spec fn level_card_heading(user_id: nat) -> Seq<char> {
    "Here is <@"@ + decimal(user_id) + ">'s level info!"@
}

/// Writes the heading of a member's level card.
pub fn level_card_description(user_id: u64) -> (r: String)
    ensures
        r@ == level_card_heading(user_id as nat),
{
    let mut s = String::from_str("Here is <@");
    push_decimal(&mut s, user_id);
    s.append(">'s level info!");
    s
}

} // verus!
