use rikka::api::build_query_string;
use rikka::api::uri_for_method;
use rikka::api::uri_for_method_with_params;
use rikka::api::ApiResult;
use rikka::api::response_payload;
use rikka::api::Chat;
use rikka::api::Response;
use rikka::api::Message;
use rikka::api::Sticker;
use rikka::api::Update;
use rikka::api::User;
use rikka::bot::cmd_hello;
use rikka::bot::cmd_ping;
use rikka::bot::cmd_print_cmds;
use rikka::bot::cmd_stats;
use rikka::bot::command_for;
use rikka::bot::command_map;
use rikka::bot::is_rikka;
use rikka::bot::on_identity;
use rikka::bot::on_message;
use rikka::bot::on_update;
use rikka::bot::parse_command;
use rikka::bot::record_sticker;
use rikka::bot::Command;
use rikka::bot::Config;
use rikka::bot::Effect;
use rikka::state::State;
use rikka::ErrorKind;

fn config() -> Config {
    Config {
        token: String::from("TOKEN"),
        rikka_name: String::from("rikka"),
        state_file: String::from("state.json"),
    }
}

fn text_message(text: &str) -> Message {
    Message {
        message_id: 42,
        chat: Chat { id: 7 },
        text: Some(String::from(text)),
        sticker: None,
        from: None,
        date: 1000,
    }
}

fn sticker_message(file_id: &str, from: &str) -> Message {
    Message {
        message_id: 43,
        chat: Chat { id: 7 },
        text: None,
        sticker: Some(Sticker { file_id: String::from(file_id) }),
        from: Some(User { id: 1, username: Some(String::from(from)) }),
        date: 1000,
    }
}

fn param<'a>(params: &'a [(String, String)], key: &str) -> &'a str {
    &params.iter().find(|p| p.0 == key).expect("parameter present").1
}

#[test]
fn command_map_lists_every_command() {
    let m = command_map();
    let names: Vec<&str> = m.iter().map(|p| p.0.as_str()).collect();
    assert_eq!(names, vec!["hello", "help", "print_cmds", "ping", "stats", "rikka"]);
    assert_eq!(command_for("hello"), Some(Command::Hello));
    assert_eq!(command_for("rikka"), Some(Command::Rikka));
    assert_eq!(command_for("nope"), None);
    assert_eq!(command_for(""), None);
}

#[test]
fn parse_command_reads_the_first_token() {
    assert_eq!(parse_command("/hello", "bot").as_deref(), Some("hello"));
    assert_eq!(parse_command("/hello world", "bot").as_deref(), Some("hello"));
    assert_eq!(parse_command("/hello@bot", "bot").as_deref(), Some("hello"));
    assert_eq!(parse_command("/hello@bot more", "bot").as_deref(), Some("hello"));
}

#[test]
fn parse_command_ignores_other_callees() {
    assert_eq!(parse_command("/hello@other", "bot"), None);
    assert_eq!(parse_command("hello", "bot"), None);
    assert_eq!(parse_command("", "bot"), None);
    assert_eq!(parse_command("just text", "bot"), None);
}

#[test]
fn is_rikka_matches_the_configured_name() {
    let cfg = config();
    let yes = Some(User { id: 1, username: Some(String::from("rikka")) });
    let wrong = Some(User { id: 1, username: Some(String::from("other")) });
    let anonymous = Some(User { id: 1, username: None });
    assert!(is_rikka(&cfg, &yes));
    assert!(!is_rikka(&cfg, &wrong));
    assert!(!is_rikka(&cfg, &anonymous));
    assert!(!is_rikka(&cfg, &None));
}

#[test]
fn identity_answer_yields_name_or_startup_error() {
    let ok = on_identity(ApiResult::User(User { id: 1, username: Some(String::from("bot")) }));
    assert_eq!(ok, Ok(String::from("bot")));
    let anonymous = on_identity(ApiResult::User(User { id: 1, username: None }));
    assert_eq!(anonymous, Err(ErrorKind::Startup));
    let wrong = on_identity(ApiResult::Nothing);
    assert_eq!(wrong, Err(ErrorKind::Startup));
}

#[test]
fn hello_reply() {
    let msg = text_message("/hello");
    let req = cmd_hello(&msg);
    assert_eq!(req.method, "sendMessage");
    assert_eq!(param(&req.params, "chat_id"), "7");
    assert_eq!(param(&req.params, "reply_to_message_id"), "42");
    assert_eq!(param(&req.params, "text"), "Hello, Rikka Rikka Ri~");
}

#[test]
fn print_cmds_reply_lists_the_advertised_commands() {
    let msg = text_message("/print_cmds");
    let req = cmd_print_cmds(&msg);
    assert_eq!(
        param(&req.params, "text"),
        "hello - Say hello to Rikka!\nhelp - Print this message.\nping - Is Rikka here now?\nrikka - Rikka Rikka Ri!"
    );
}

#[test]
fn ping_reply_reports_latency() {
    let msg = text_message("/ping");
    let req = cmd_ping(&msg, 1000, 5_000_000);
    // 1000 s and 5 ms now, message dated 999 s: 1000*1000 + 5 - 999*1000.
    let mut dated = msg;
    dated.date = 999;
    let req2 = cmd_ping(&dated, 1000, 5_000_000);
    assert_eq!(param(&req2.params, "text"), "Latency: 1005ms");
    assert_eq!(param(&req.params, "text"), "Latency: 5ms");
}

#[test]
fn stats_reply_carries_the_serialized_store() {
    let mut st = State::new(String::from("state.json"));
    st.put("k", "v");
    let msg = text_message("/stats");
    let req = cmd_stats(&st, &msg);
    assert_eq!(param(&req.params, "text"), "```\n{\"k\":\"v\"}\n```");
    assert_eq!(param(&req.params, "parse_mode"), "markdown");
}

#[test]
fn known_command_produces_one_send() {
    let mut st = State::new(String::from("state.json"));
    let cfg = config();
    let msg = text_message("/hello");
    let effects = on_message(&mut st, &cfg, "bot", &msg);
    assert_eq!(effects.len(), 1);
    match &effects[0] {
        Effect::Send(req) => {
            assert_eq!(req.method, "sendMessage");
            assert_eq!(param(&req.params, "text"), "Hello, Rikka Rikka Ri~");
        },
        Effect::WriteState(_) => panic!("a command never writes state"),
    }
}

#[test]
fn unknown_or_foreign_commands_do_nothing() {
    let mut st = State::new(String::from("state.json"));
    let cfg = config();
    assert!(on_message(&mut st, &cfg, "bot", &text_message("/nope")).is_empty());
    assert!(on_message(&mut st, &cfg, "bot", &text_message("/hello@other")).is_empty());
    assert!(on_message(&mut st, &cfg, "bot", &text_message("plain text")).is_empty());
    assert_eq!(st.dirty_count(), 0);
}

#[test]
fn sticker_from_watched_account_is_counted() {
    let mut st = State::new(String::from("state.json"));
    let cfg = config();
    let effects = on_message(&mut st, &cfg, "bot", &sticker_message("abc", "rikka"));
    assert!(effects.is_empty());
    assert_eq!(st.get_i64("sticker_abc"), Some(1));
    assert_eq!(st.get_i64("sticker_total"), Some(1));
    assert_eq!(st.dirty_count(), 2);
}

#[test]
fn sticker_from_anyone_else_is_ignored() {
    let mut st = State::new(String::from("state.json"));
    let cfg = config();
    let effects = on_message(&mut st, &cfg, "bot", &sticker_message("abc", "someone"));
    assert!(effects.is_empty());
    assert_eq!(st.get_i64("sticker_abc"), None);
    assert_eq!(st.dirty_count(), 0);
}

#[test]
fn fifth_counted_sticker_flushes_the_store() {
    let mut st = State::new(String::from("state.json"));
    let cfg = config();
    for i in 0..4 {
        let effects = on_message(&mut st, &cfg, "bot", &sticker_message(&format!("s{}", i), "rikka"));
        assert!(effects.is_empty());
    }
    assert_eq!(st.dirty_count(), 8);
    let effects = on_message(&mut st, &cfg, "bot", &sticker_message("s4", "rikka"));
    assert_eq!(effects.len(), 1);
    match &effects[0] {
        Effect::WriteState(snap) => {
            let mut restored = State::new(String::from("state.json"));
            assert!(restored.load(Some(snap)));
            assert_eq!(restored.get_i64("sticker_total"), Some(5));
            assert_eq!(restored.get_i64("sticker_s0"), Some(1));
        },
        Effect::Send(_) => panic!("counting a sticker sends nothing"),
    }
    assert_eq!(st.dirty_count(), 0);
    assert!(st.is_save_pending());
}

#[test]
fn repeated_stickers_accumulate() {
    let mut st = State::new(String::from("state.json"));
    record_sticker(&mut st, "abc");
    record_sticker(&mut st, "abc");
    record_sticker(&mut st, "xyz");
    assert_eq!(st.get_i64("sticker_abc"), Some(2));
    assert_eq!(st.get_i64("sticker_xyz"), Some(1));
    assert_eq!(st.get_i64("sticker_total"), Some(3));
}

#[test]
fn query_string_percent_encodes_values() {
    let params = vec![
        (String::from("a"), String::from("1")),
        (String::from("b"), String::from("x y")),
    ];
    assert_eq!(build_query_string(&params), "a=1&b=x%20y");
    assert_eq!(build_query_string(&Vec::new()), "");
}

#[test]
fn method_urls() {
    assert_eq!(
        uri_for_method("TOKEN", "getMe"),
        "https://api.telegram.org/botTOKEN/getMe"
    );
    let params = vec![(String::from("offset"), String::from("5"))];
    assert_eq!(
        uri_for_method_with_params("TOKEN", "getUpdates", &params),
        "https://api.telegram.org/botTOKEN/getUpdates?offset=5"
    );
}

#[test]
fn update_without_message_is_ignored() {
    let mut st = State::new(String::from("state.json"));
    let cfg = config();
    let bare = Update { update_id: 1, message: None };
    assert!(on_update(&mut st, &cfg, "bot", &bare).is_empty());
    let carried = Update { update_id: 2, message: Some(text_message("/help")) };
    let effects = on_update(&mut st, &cfg, "bot", &carried);
    assert_eq!(effects.len(), 1);
    match &effects[0] {
        Effect::Send(req) => {
            assert_eq!(req.method, "sendMessage");
            assert!(param(&req.params, "text").contains("/hello - Say hello to Rikka!"));
        },
        Effect::WriteState(_) => panic!("the help command never writes state"),
    }
}

#[test]
fn rikka_command_with_no_recorded_stickers_does_nothing() {
    let mut st = State::new(String::from("state.json"));
    let cfg = config();
    assert!(on_message(&mut st, &cfg, "bot", &text_message("/rikka")).is_empty());
}

#[test]
fn rikka_command_sends_a_recorded_sticker() {
    let mut st = State::new(String::from("state.json"));
    let cfg = config();
    record_sticker(&mut st, "abc");
    let effects = on_message(&mut st, &cfg, "bot", &text_message("/rikka"));
    assert_eq!(effects.len(), 1);
    match &effects[0] {
        Effect::Send(req) => {
            assert_eq!(req.method, "sendSticker");
            assert_eq!(param(&req.params, "sticker"), "abc");
            assert_eq!(param(&req.params, "chat_id"), "7");
        },
        Effect::WriteState(_) => panic!("the sticker command never writes state"),
    }
}

#[test]
fn response_envelope_yields_payload_or_transient_error() {
    let good = Response { ok: true, result: Some(ApiResult::Nothing) };
    assert!(matches!(response_payload(good), Ok(ApiResult::Nothing)));
    let refused = Response { ok: false, result: Some(ApiResult::Nothing) };
    assert!(matches!(response_payload(refused), Err(ErrorKind::TransientFetch)));
    let hollow = Response { ok: true, result: None };
    assert!(matches!(response_payload(hollow), Err(ErrorKind::TransientFetch)));
}
