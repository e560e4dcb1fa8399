use agent_kitten::chunking::split_text;
use agent_kitten::commands::{
    apply_config_set, config_not_found_reply, config_raw_reply, config_set_from_text,
    config_value_reply, raw_config_from_text,
    leaderboard_description, level_card_description, LeaderboardRow,
};
use agent_kitten::config::{get_nested_key, set_nested_key};
use agent_kitten::database::{
    generate_database_name, plan_set, sanitize_database_name, upsert_outcome, SetMode, SetOutcome,
    SetPlan,
};
use agent_kitten::events::{channel_url, message_guild, MessageGate, VoiceRoster};
use agent_kitten::json::Json;
use agent_kitten::leveling::{
    calculate_exp_to_next_level, check_range, first_experience, first_level, level_progress,
    level_up_messaging_enabled, level_up_notice, member_write, rank_members,
    ranked_members_in_range, UserLeveling,
};
use agent_kitten::music::{plan_queue, play_query, voice_channel_to_join, LoadSummary, QueuePlan, TrackInfo};
use agent_kitten::status::convert_millis_to_human_readable;
use agent_kitten::textgen::{
    attachment_kind, dispatch_tool_calls, format_search_results, image_part, scrape_url,
    chat_step, scraped_from_conversion, tool_arguments, scraped_markdown, searx_url, text_file_part, tool_answer,
    AttachmentError, AttachmentKind, ChatAction, ToolCall, ToolDispatch, ToolError,
};
use bson::oid::ObjectId;
use bson::Bson;

fn s(x: &str) -> String {
    x.to_string()
}

fn obj(members: Vec<(&str, Json)>) -> Json {
    Json::Object(members.into_iter().map(|(k, v)| (k.to_string(), v)).collect())
}

fn num(n: &str) -> Json {
    Json::Number(n.to_string())
}

fn strv(x: &str) -> Json {
    Json::Str(x.to_string())
}

fn show(j: &Json) -> String {
    match j {
        Json::Null => "null".to_string(),
        Json::Bool(b) => b.to_string(),
        Json::Number(n) => n.clone(),
        Json::Str(x) => format!("{:?}", x),
        Json::Array(items) => format!("[{}]", items.iter().map(show).collect::<Vec<_>>().join(",")),
        Json::Object(members) => {
            let mut seen: Vec<(String, String)> = Vec::new();
            for (k, v) in members {
                seen.retain(|(key, _)| key != k);
                seen.push((k.clone(), show(v)));
            }
            seen.sort();
            format!("{{{}}}", seen.iter().map(|(k, v)| format!("{:?}:{}", k, v)).collect::<Vec<_>>().join(","))
        }
    }
}

// ---------------------------------------------------------------- config paths

#[test]
fn set_then_get_returns_value() {
    let mut config = obj(vec![]);
    assert!(set_nested_key(&mut config, "leveling.expmultiplier", num("2")).is_ok());
    let got = get_nested_key(&config, "leveling.expmultiplier").unwrap();
    assert_eq!(show(&got), "2");
    assert_eq!(show(&config), "{\"leveling\":{\"expmultiplier\":2}}");
}

#[test]
fn set_replaces_non_object_intermediate() {
    let mut config = obj(vec![("a", num("1")), ("b", Json::Bool(true))]);
    assert!(set_nested_key(&mut config, "a.c", strv("x")).is_ok());
    assert_eq!(show(&config), "{\"a\":{\"c\":\"x\"},\"b\":true}");
}

#[test]
fn set_extends_arrays_with_empty_objects() {
    let mut config = Json::Array(vec![num("7")]);
    assert!(set_nested_key(&mut config, "3.a", Json::Bool(true)).is_ok());
    assert_eq!(show(&config), "[7,{},{},{\"a\":true}]");
    let mut config = Json::Array(vec![]);
    assert!(set_nested_key(&mut config, "1", Json::Null).is_ok());
    assert_eq!(show(&config), "[{},null]");
}

#[test]
fn set_refuses_empty_path() {
    let mut config = obj(vec![("a", num("1"))]);
    assert_eq!(set_nested_key(&mut config, "", num("2")), Err(s("Empty path")));
    assert_eq!(show(&config), "{\"a\":1}");
}

#[test]
fn set_refuses_non_numeric_array_key() {
    let mut config = Json::Array(vec![num("1")]);
    assert_eq!(
        set_nested_key(&mut config, "x.y", num("2")),
        Err(s("Array index expected but found a non-numeric key: x"))
    );
    assert_eq!(
        set_nested_key(&mut config, "-1", num("2")),
        Err(s("Array index expected but found a non-numeric key: -1"))
    );
    assert_eq!(show(&config), "[1]");
}

#[test]
fn set_refuses_scalar_root() {
    let mut config = strv("plain");
    assert_eq!(
        set_nested_key(&mut config, "a.b", num("2")),
        Err(s("Invalid path: a.b. Encountered non-object/non-array at key a"))
    );
}

#[test]
fn get_reads_arrays_and_objects() {
    let config = obj(vec![("list", Json::Array(vec![num("10"), num("20")]))]);
    assert_eq!(show(&get_nested_key(&config, "list.1").unwrap()), "20");
    assert_eq!(show(&get_nested_key(&config, "list.+1").unwrap()), "20");
    assert!(get_nested_key(&config, "list.2").is_none());
    assert!(get_nested_key(&config, "list.-1").is_none());
    assert!(get_nested_key(&config, "list. 1").is_none());
    assert!(get_nested_key(&config, "").is_none());
    assert!(get_nested_key(&config, "missing").is_none());
    assert!(get_nested_key(&config, "list.1.x").is_none());
}

#[test]
fn later_members_shadow_earlier_ones() {
    let config = obj(vec![("k", num("1")), ("k", num("2"))]);
    assert_eq!(show(&get_nested_key(&config, "k").unwrap()), "2");
}

#[test]
fn set_twice_is_set_once() {
    let mut once = obj(vec![("x", num("1"))]);
    set_nested_key(&mut once, "a.0.b", strv("v")).unwrap();
    let mut twice = obj(vec![("x", num("1"))]);
    set_nested_key(&mut twice, "a.0.b", strv("v")).unwrap();
    set_nested_key(&mut twice, "a.0.b", strv("v")).unwrap();
    assert_eq!(show(&once), show(&twice));
}

#[test]
fn set_keeps_other_members() {
    let mut config = obj(vec![("keep", obj(vec![("deep", num("5"))]))]);
    set_nested_key(&mut config, "other.x", num("1")).unwrap();
    assert_eq!(show(&get_nested_key(&config, "keep.deep").unwrap()), "5");
}

#[test]
fn deep_clone_copies() {
    let config = obj(vec![("a", Json::Array(vec![strv("x"), Json::Null]))]);
    assert_eq!(show(&config.deep_clone()), show(&config));
}

// ---------------------------------------------------------------- chunking

#[test]
fn split_short_text_is_one_chunk() {
    assert_eq!(split_text("hello", 2000), vec![s("hello")]);
    assert_eq!(split_text("", 2000), Vec::<String>::new());
    assert_eq!(split_text("  \n \r\n", 2000), Vec::<String>::new());
}

#[test]
fn split_at_line_boundaries() {
    assert_eq!(split_text("line1\nline2", 8), vec![s("line1"), s("line2")]);
    assert_eq!(split_text("line1\r\nline2\r", 8), vec![s("line1"), s("line2")]);
}

#[test]
fn split_cuts_long_lines() {
    assert_eq!(split_text("abcdefghij", 4), vec![s("abc"), s("def"), s("ghi"), s("j")]);
}

#[test]
fn split_keeps_code_blocks_fenced() {
    assert_eq!(
        split_text("```\naaaa\nbbbb\n```", 12),
        vec![s("```\naaaa\n```"), s("```\nbbbb"), s("```")]
    );
    assert_eq!(split_text("```\nopen", 100), vec![s("```\nopen\n```")]);
}

#[test]
fn split_chunks_are_trimmed_and_within_limit() {
    let text = "  first line  \nsecond line that is rather long\n\nthird";
    for chunk in split_text(text, 10) {
        assert_eq!(chunk.trim(), chunk);
        assert!(chunk.chars().count() <= 10);
    }
}

// ---------------------------------------------------------------- leveling

#[test]
fn exp_to_next_level_values() {
    assert_eq!(calculate_exp_to_next_level(0, 0), 10);
    assert_eq!(calculate_exp_to_next_level(5, 3), 39);
    assert_eq!(calculate_exp_to_next_level(1, 20), -5);
    assert_eq!(calculate_exp_to_next_level(-13, 0), -26);
}

#[test]
fn level_progress_levels_up_and_resets() {
    let p = level_progress(0, 5, 5);
    assert!(p.leveled_up);
    assert_eq!(p.new_level, 1);
    assert_eq!(p.stored_experience, 0);
    let q = level_progress(0, 0, 3);
    assert!(!q.leveled_up);
    assert_eq!(q.new_level, 0);
    assert_eq!(q.stored_experience, 3);
}

#[test]
fn level_up_messaging_follows_config() {
    let off = obj(vec![("leveling", obj(vec![("levelupmessaging", Json::Bool(false))]))]);
    let on = obj(vec![("leveling", obj(vec![("levelupmessaging", Json::Bool(true))]))]);
    let text = obj(vec![("leveling", obj(vec![("levelupmessaging", strv("false"))]))]);
    assert!(!level_up_messaging_enabled(Some(&off)));
    assert!(level_up_messaging_enabled(Some(&on)));
    assert!(level_up_messaging_enabled(Some(&text)));
    assert!(level_up_messaging_enabled(Some(&obj(vec![]))));
    assert!(level_up_messaging_enabled(None));
}

#[test]
fn level_up_notice_text() {
    let n = level_up_notice("42", 3, "https://discord.com/channels/1/2");
    assert_eq!(n.title, "🎉 Congratulations! 🎉");
    assert_eq!(
        n.description,
        "<@!42>, you leveled up to level 3 in https://discord.com/channels/1/2! 🎊\n\n-# If you don't want these messages, run `/userconf set` and set `leveling.levelupmessaging` to `false`"
    );
    assert!(level_up_notice("1", -7, "c").description.contains("level -7 in c!"));
}

fn user(userid: &str, level: i64, experience: i64) -> UserLeveling {
    UserLeveling {
        _id: ObjectId::new(),
        userid: s(userid),
        experience,
        level,
        serverid: s("srv"),
    }
}

#[test]
fn ranking_orders_by_level_then_experience_stably() {
    let users = vec![user("a", 1, 5), user("b", 2, 0), user("c", 1, 7), user("d", 2, 0)];
    let ranked: Vec<String> = rank_members(users).into_iter().map(|u| u.userid).collect();
    assert_eq!(ranked, vec![s("b"), s("d"), s("c"), s("a")]);
}

#[test]
fn ranking_range_is_cut() {
    let users = vec![user("a", 1, 5), user("b", 2, 0), user("c", 1, 7), user("d", 2, 0)];
    let r: Vec<String> = ranked_members_in_range(users, 1, 2).into_iter().map(|u| u.userid).collect();
    assert_eq!(r, vec![s("d"), s("c")]);
    let users = vec![user("a", 1, 5), user("b", 2, 0)];
    let r: Vec<String> = ranked_members_in_range(users, 1, 9).into_iter().map(|u| u.userid).collect();
    assert_eq!(r, vec![s("a")]);
    let users = vec![user("a", 1, 5)];
    assert!(ranked_members_in_range(users, 3, 4).is_empty());
}

#[test]
fn range_check_refuses_reversed_range() {
    assert_eq!(check_range(3, 1), Err(s("Invalid indices: x must be <= y")));
    assert_eq!(check_range(1, 1), Ok(()));
}

#[test]
fn first_record_values() {
    assert_eq!(first_experience(&vec![]), 0);
    assert_eq!(first_level(&vec![]), 0);
    let users = vec![user("a", 4, 9), user("b", 1, 1)];
    assert_eq!(first_experience(&users), 9);
    assert_eq!(first_level(&users), 4);
}

#[test]
fn member_write_keeps_existing_id() {
    let existing = user("a", 1, 1);
    let w = member_write(Some(&existing), "a", "srv", 5, 2);
    assert!(w.replace_existing);
    assert_eq!(w.record._id, existing._id);
    assert_eq!((w.record.experience, w.record.level), (5, 2));
    let fresh = member_write(None, "b", "srv2", 0, 0);
    assert!(!fresh.replace_existing);
    assert_eq!(fresh.record.userid, "b");
    assert_eq!(fresh.record.serverid, "srv2");
}

// ---------------------------------------------------------------- database

#[test]
fn database_name_from_bot_name() {
    assert_eq!(generate_database_name("Agent Kitten!"), "agentkitten");
    assert_eq!(generate_database_name("Ünïcode_Bot"), "ncode_bot");
    assert_eq!(generate_database_name("\u{212A}itty"), "kitty");
    assert_eq!(generate_database_name(&"A".repeat(70)), "a".repeat(63));
    assert_eq!(sanitize_database_name("a-b_c 9"), "ab_c9");
}

fn doc(fields: Vec<(&str, Bson)>) -> Vec<(String, Bson)> {
    fields.into_iter().map(|(k, v)| (k.to_string(), v)).collect()
}

#[test]
fn patch_uses_own_id_as_filter() {
    let plan = plan_set(SetMode::Patch, None, doc(vec![("_id", Bson::Int32(7)), ("x", Bson::Int32(1))]));
    match plan {
        SetPlan::UpdateOne { filter, fields } => {
            assert_eq!(filter, doc(vec![("_id", Bson::Int32(7))]));
            assert_eq!(fields, doc(vec![("x", Bson::Int32(1))]));
        }
        _ => panic!("expected an update"),
    }
}

#[test]
fn patch_without_filter_inserts() {
    let plan = plan_set(SetMode::Patch, None, doc(vec![("x", Bson::Int32(1))]));
    match plan {
        SetPlan::InsertOne { document } => assert_eq!(document, doc(vec![("x", Bson::Int32(1))])),
        _ => panic!("expected an insert"),
    }
}

#[test]
fn replace_copies_filter_id() {
    let plan = plan_set(
        SetMode::Replace,
        Some(doc(vec![("_id", Bson::Int32(3))])),
        doc(vec![("x", Bson::Int32(1))]),
    );
    match plan {
        SetPlan::ReplaceOne { filter, document } => {
            assert_eq!(filter, doc(vec![("_id", Bson::Int32(3))]));
            assert_eq!(document, doc(vec![("x", Bson::Int32(1)), ("_id", Bson::Int32(3))]));
        }
        _ => panic!("expected a replacement"),
    }
    let plan = plan_set(
        SetMode::Replace,
        Some(doc(vec![("userid", Bson::String(s("u")))])),
        doc(vec![("x", Bson::Int32(1))]),
    );
    match plan {
        SetPlan::ReplaceOne { document, .. } => assert_eq!(document, doc(vec![("x", Bson::Int32(1))])),
        _ => panic!("expected a replacement"),
    }
}

#[test]
fn upsert_outcomes() {
    match upsert_outcome(Some(Bson::Int32(1)), 0) {
        SetOutcome::Inserted { id } => assert_eq!(id, Bson::Int32(1)),
        _ => panic!("expected an insert"),
    }
    match upsert_outcome(None, 2) {
        SetOutcome::Updated { modified_count } => assert_eq!(modified_count, 2),
        _ => panic!("expected an update"),
    }
}

// ---------------------------------------------------------------- status

#[test]
fn durations_in_largest_unit() {
    assert_eq!(convert_millis_to_human_readable(0), "less than a second");
    assert_eq!(convert_millis_to_human_readable(-5), "less than a second");
    assert_eq!(convert_millis_to_human_readable(1000), "1 second");
    assert_eq!(convert_millis_to_human_readable(2500), "2 seconds");
    assert_eq!(convert_millis_to_human_readable(60_000), "1 minute");
    assert_eq!(convert_millis_to_human_readable(7_200_000), "2 hours");
    assert_eq!(convert_millis_to_human_readable(90_061_000), "1 day");
    assert_eq!(convert_millis_to_human_readable(864_000_000), "10 days");
}

// ---------------------------------------------------------------- textgen

#[test]
fn attachment_kinds() {
    assert!(attachment_kind("image/png") == AttachmentKind::Image);
    assert!(attachment_kind("text/plain; charset=utf-8") == AttachmentKind::Text);
    assert!(attachment_kind("application/pdf") == AttachmentKind::Other);
    assert!(attachment_kind("") == AttachmentKind::Other);
}

#[test]
fn image_parts_are_data_urls() {
    assert_eq!(image_part("image/png", b"hello world~"), "data:image/png;base64,aGVsbG8gd29ybGR+");
    assert_eq!(image_part("image/gif", b"ab"), "data:image/gif;base64,YWI=");
    assert_eq!(image_part("image/gif", b""), "data:image/gif;base64,");
}

#[test]
fn text_file_parts() {
    assert_eq!(text_file_part("a.txt", b"hi".to_vec()), Ok(s("File a.txt:\n\nhi")));
    assert!(text_file_part("b.bin", vec![0xff, 0xfe]) == Err(AttachmentError::NotUtf8));
}

#[test]
fn search_url_encodes_query() {
    let args = obj(vec![("query", strv("rust lang & more"))]);
    assert_eq!(
        searx_url(&args),
        "https://searx.clowdertech.com/search?q=rust%20lang%20%26%20more&format=json"
    );
    let args = obj(vec![("query", strv("é~"))]);
    assert_eq!(searx_url(&args), "https://searx.clowdertech.com/search?q=%C3%A9~&format=json");
}

#[test]
fn search_results_are_numbered() {
    let r1 = obj(vec![("url", strv("u1")), ("title", strv("t1")), ("content", strv("c1"))]);
    let r2 = obj(vec![("url", strv("u2")), ("title", strv("t2")), ("content", strv(" c2 "))]);
    let response = obj(vec![("results", Json::Array(vec![r1, r2]))]);
    assert_eq!(format_search_results(&response), "1. u1 - t1 - c1\n2. u2 - t2 -  c2");
    let empty = obj(vec![("results", Json::Array(vec![]))]);
    assert_eq!(format_search_results(&empty), "");
}

#[test]
fn scrape_reads_url_and_converts() {
    let args = obj(vec![("url", strv("https://example.com"))]);
    assert_eq!(scrape_url(&args), "https://example.com");
    let md = scraped_markdown("<h1>Hello World</h1>").unwrap();
    assert!(md.contains("Hello World"));
    assert!(!md.contains("<h1>"));
    assert_eq!(md.trim(), md);
}

#[test]
fn tool_calls_are_dispatched() {
    let calls = vec![
        ToolCall { id: s("1"), name: s("web_search") },
        ToolCall { id: s("2"), name: s("nope") },
    ];
    let registered = vec![s("web_search"), s("web_scrape")];
    let out = dispatch_tool_calls(&calls, &registered);
    assert_eq!(out.len(), 2);
    match &out[0] {
        ToolDispatch::Run { id, name } => assert_eq!((id.as_str(), name.as_str()), ("1", "web_search")),
        _ => panic!("expected a run"),
    }
    match &out[1] {
        ToolDispatch::Unknown { id, reply } => {
            assert_eq!(id, "2");
            assert_eq!(reply, "No handler registered for function: nope");
        }
        _ => panic!("expected an unknown"),
    }
}

// ---------------------------------------------------------------- music

#[test]
fn play_queries() {
    assert_eq!(play_query(s("never gonna")), "ytmsearch:never gonna");
    assert_eq!(play_query(s("https://youtu.be/x")), "https://youtu.be/x");
    assert_eq!(play_query(s("htt")), "ytmsearch:htt");
}

fn track(author: &str, title: &str, uri: Option<&str>) -> TrackInfo {
    TrackInfo { author: s(author), title: s(title), uri: uri.map(s) }
}

#[test]
fn queue_plans() {
    match plan_queue(&LoadSummary::Track(track("A", "T", Some("https://u")))) {
        QueuePlan::Queue { count, announcement } => {
            assert_eq!(count, 1);
            assert_eq!(announcement, "Added to queue: [A - T](<https://u>)");
        }
        QueuePlan::Report => panic!("expected a queue"),
    }
    match plan_queue(&LoadSummary::Search(vec![track("A", "T", None), track("B", "U", None)])) {
        QueuePlan::Queue { count, announcement } => {
            assert_eq!(count, 1);
            assert_eq!(announcement, "Added to queue: A - T");
        }
        QueuePlan::Report => panic!("expected a queue"),
    }
    match plan_queue(&LoadSummary::Playlist { name: s("Mix"), track_count: 12 }) {
        QueuePlan::Queue { count, announcement } => {
            assert_eq!(count, 12);
            assert_eq!(announcement, "Added playlist to queue: Mix");
        }
        QueuePlan::Report => panic!("expected a queue"),
    }
    assert!(matches!(plan_queue(&LoadSummary::Other), QueuePlan::Report));
}

#[test]
fn join_target() {
    assert_eq!(voice_channel_to_join(Some(5), Some(6)), Some(5));
    assert_eq!(voice_channel_to_join(None, Some(6)), Some(6));
    assert_eq!(voice_channel_to_join(None, None), None);
}

// ---------------------------------------------------------------- events

#[test]
fn message_gate_credits_once_per_window() {
    let mut gate = MessageGate::new();
    assert!(gate.try_credit(7));
    assert!(!gate.try_credit(7));
    assert!(gate.try_credit(8));
    gate.reset();
    assert!(gate.try_credit(7));
}

#[test]
fn voice_roster_tracks_earning_members() {
    let mut roster = VoiceRoster::new();
    roster.update(1, Some(10), Some(20), false, false, None);
    roster.update(2, Some(10), Some(20), true, false, Some(true));
    roster.update(3, Some(10), Some(20), false, true, Some(false));
    roster.update(4, Some(10), Some(20), false, false, None);
    roster.update(4, Some(10), None, false, false, None);
    let mut ids: Vec<u64> = roster.earning_members().into_iter().map(|(id, _)| id).collect();
    ids.sort();
    assert_eq!(ids, vec![1, 2]);
}

#[test]
fn channel_links() {
    assert_eq!(channel_url(123, 456), "https://discord.com/channels/123/456");
    assert_eq!(channel_url(0, 18446744073709551615), "https://discord.com/channels/0/18446744073709551615");
}

// ---------------------------------------------------------------- commands

#[test]
fn config_set_command() {
    let mut config = obj(vec![]);
    assert!(apply_config_set(&mut config, "leveling.levelupmessaging", Some(Json::Bool(false)), "false").is_ok());
    assert!(!level_up_messaging_enabled(Some(&config)));
    assert!(apply_config_set(&mut config, "greeting", None, "hi there").is_ok());
    assert_eq!(show(&get_nested_key(&config, "greeting").unwrap()), "\"hi there\"");
    let mut scalar = num("1");
    assert_eq!(
        apply_config_set(&mut scalar, "a", None, "x"),
        Err(s("Invalid path: a (Invalid path: a. Encountered non-object/non-array at key a)"))
    );
}

#[test]
fn config_replies() {
    assert_eq!(config_value_reply("k", "1"), "Value for `k`:\n```json\n1\n```");
    assert_eq!(config_not_found_reply("k"), "Key `k` not found.");
    assert_eq!(config_raw_reply("{}"), "Raw configuration:\n```json\n{}\n```");
}

#[test]
fn leaderboard_and_level_card() {
    let rows = vec![
        LeaderboardRow { user_id: 5, level: 3, experience: 12 },
        LeaderboardRow { user_id: 6, level: 1, experience: 0 },
    ];
    assert_eq!(
        leaderboard_description(&rows),
        "🏆 **Top 10 Users** 🏆\n\n<@5> - Level: 3, Experience: 12\n<@6> - Level: 1, Experience: 0\n"
    );
    assert_eq!(level_card_description(99), "Here is <@99>'s level info!");
}

#[test]
fn ranking_range_to_the_largest_index() {
    let users = vec![user("a", 1, 5), user("b", 2, 0), user("c", 1, 7)];
    let r: Vec<String> = ranked_members_in_range(users, 1, usize::MAX)
        .into_iter()
        .map(|u| u.userid)
        .collect();
    assert_eq!(r, vec![s("c"), s("a")]);
    let users = vec![user("a", 1, 5)];
    assert!(ranked_members_in_range(users, usize::MAX, usize::MAX).is_empty());
}

#[test]
fn voice_member_updated_twice_is_listed_once() {
    let mut roster = VoiceRoster::new();
    roster.update(5, Some(10), Some(20), false, false, None);
    roster.update(5, Some(10), Some(21), false, false, Some(true));
    roster.update(6, Some(10), Some(20), false, false, None);
    let earning = roster.earning_members();
    let mut ids: Vec<u64> = earning.iter().map(|(id, _)| *id).collect();
    ids.sort();
    assert_eq!(ids, vec![5, 6]);
    let five = earning.iter().find(|(id, _)| *id == 5).unwrap();
    assert_eq!(five.1.channel_id, 21);
}

#[test]
fn derived_database_name_is_kept() {
    let once = generate_database_name("Agent Kitten 2!");
    assert_eq!(once, "agentkitten2");
    assert_eq!(generate_database_name(&once), once);
    assert_eq!(generate_database_name("already_safe_9"), "already_safe_9");
}

#[test]
fn chat_step_finishes_or_answers() {
    let mut history = vec![s("user: hi")];
    let registered = vec![s("web_search")];
    let action = chat_step(&mut history, s("assistant: hello"), &vec![], &registered);
    assert!(matches!(action, ChatAction::Finish));
    assert_eq!(history, vec![s("user: hi"), s("assistant: hello")]);

    let calls = vec![
        ToolCall { id: s("c1"), name: s("web_search") },
        ToolCall { id: s("c2"), name: s("missing") },
    ];
    let action = chat_step(&mut history, s("assistant: calls"), &calls, &registered);
    assert_eq!(history.len(), 3);
    assert_eq!(history[2], "assistant: calls");
    let ds = match action {
        ChatAction::Answer(ds) => ds,
        ChatAction::Finish => panic!("expected answers"),
    };
    assert_eq!(ds.len(), 2);
    let mut ds = ds.into_iter();
    let a = tool_answer(ds.next().unwrap(), Some(s("results")));
    assert_eq!((a.tool_call_id.as_str(), a.content.as_str()), ("c1", "results"));
    let b = tool_answer(ds.next().unwrap(), None);
    assert_eq!(b.tool_call_id, "c2");
    assert_eq!(b.content, "No handler registered for function: missing");
}

#[test]
fn scraped_text_from_conversion_results() {
    assert_eq!(scraped_from_conversion(Some(Some(s("  # Title \n")))), Ok(s("# Title")));
    assert_eq!(scraped_from_conversion(Some(None)), Ok(s("")));
    assert_eq!(scraped_from_conversion(None), Err(ToolError::Conversion));
}

fn keys(j: &Json) -> Vec<String> {
    match j {
        Json::Object(members) => members.iter().map(|(k, _)| k.clone()).collect(),
        _ => Vec::new(),
    }
}

#[test]
fn set_keeps_member_order() {
    let mut config = obj(vec![("b", num("1")), ("a", obj(vec![("y", num("2")), ("x", num("3"))]))]);
    set_nested_key(&mut config, "c", num("4")).unwrap();
    assert_eq!(keys(&config), vec![s("b"), s("a"), s("c")]);
    set_nested_key(&mut config, "a.y", num("5")).unwrap();
    assert_eq!(keys(&config), vec![s("b"), s("a"), s("c")]);
    let inner = get_nested_key(&config, "a").unwrap();
    assert_eq!(keys(&inner), vec![s("y"), s("x")]);
    assert_eq!(show(&get_nested_key(&config, "a.y").unwrap()), "5");
}

#[test]
fn set_command_reads_json_text() {
    let mut config = obj(vec![]);
    assert!(config_set_from_text(&mut config, "leveling.expmultiplier", "2").is_ok());
    assert_eq!(show(&get_nested_key(&config, "leveling.expmultiplier").unwrap()), "2");
    assert!(config_set_from_text(&mut config, "greeting", "hello there").is_ok());
    assert_eq!(show(&get_nested_key(&config, "greeting").unwrap()), "\"hello there\"");
    assert!(config_set_from_text(&mut config, "list", "[1, {\"z\": true, \"a\": null}]").is_ok());
    let item = get_nested_key(&config, "list.1").unwrap();
    assert_eq!(keys(&item), vec![s("z"), s("a")]);
    let mut scalar = num("1");
    assert_eq!(
        config_set_from_text(&mut scalar, "a", "1"),
        Err(s("Invalid path: a (Invalid path: a. Encountered non-object/non-array at key a)"))
    );
}

#[test]
fn setraw_reads_whole_config() {
    let parsed = raw_config_from_text("{\"b\": 1, \"a\": {\"c\": \"x\"}}").unwrap();
    assert_eq!(keys(&parsed), vec![s("b"), s("a")]);
    assert_eq!(show(&get_nested_key(&parsed, "a.c").unwrap()), "\"x\"");
    assert_eq!(
        raw_config_from_text("{not json").err(),
        Some(s("Invalid JSON format. Please provide a valid JSON string."))
    );
}

#[test]
fn tool_arguments_are_json_or_null() {
    let args = tool_arguments("{\"url\": \"https://example.com\"}");
    assert_eq!(scrape_url(&args), "https://example.com");
    assert!(matches!(tool_arguments("not json"), Json::Null));
}

#[test]
fn messages_from_bots_or_outside_servers_are_skipped() {
    assert_eq!(message_guild(false, Some(42)), Some(42));
    assert_eq!(message_guild(true, Some(42)), None);
    assert_eq!(message_guild(false, None), None);
}
