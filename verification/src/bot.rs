//! The bot's own behaviour: the command table, command parsing, the
//! per-command replies, and the sticker-counting handler.
//!
//! Everything here is a decision: a function from the incoming message
//! and the store to the effects the host must perform — an outbound send,
//! or a write of the state snapshot.  The host owns the transport and the
//! disk; it executes the effects and reports save completion back to the
//! store.

use crate::api::Message;
use crate::api::ApiResult;
use crate::api::User;
use crate::sampler::random_sticker;
use crate::sampler::select_sticker;
use crate::sampler::sticker_prefix;
use crate::sampler::total_key;
use crate::sampler::view_opt;
use crate::state::counter_of;
use crate::state::put_entries;
use crate::state::save_step;
use crate::state::State;
use crate::strutil::dec_repr;
use crate::strutil::find_char;
use crate::strutil::first_pos;
use crate::strutil::format_i64;
use crate::strutil::has_prefix;
use crate::strutil::has_suffix;
use crate::strutil::is_prefix;
use crate::strutil::is_suffix;
use crate::strutil::lemma_first_pos_at;
use crate::strutil::str_eq;
use crate::codec::entries_view;
use crate::codec::ser_map;
use crate::ErrorKind;
use vstd::prelude::*;

verus! {

/// The host process's configuration: the API credential token, the name
/// whose stickers are counted, and the backing state file.
pub struct Config {
    pub token: String,
    pub rikka_name: String,
    pub state_file: String,
}

/// The commands the bot answers, as a tagged variant each: the dispatch
/// table maps a command name to one of these by exact string match.
#[derive(Clone, Copy, PartialEq, Eq, Structural, Debug)]
pub enum Command {
    Hello,
    Help,
    PrintCmds,
    Ping,
    Stats,
    Rikka,
}

/// The registered-at-startup mapping from command name to variant.
pub open spec fn command_names() -> Seq<(Seq<char>, Command)> {
    seq![
        ("hello"@, Command::Hello),
        ("help"@, Command::Help),
        ("print_cmds"@, Command::PrintCmds),
        ("ping"@, Command::Ping),
        ("stats"@, Command::Stats),
        ("rikka"@, Command::Rikka),
    ]
}

/// The variant a name maps to, if any.
pub open spec fn cmd_lookup(m: Seq<(Seq<char>, Command)>, name: Seq<char>) -> Option<Command>
    decreases m.len(),
{
    if m.len() == 0 {
        None
    } else if m[0].0 == name {
        Some(m[0].1)
    } else {
        cmd_lookup(m.drop_first(), name)
    }
}

/// If `name` first occurs at `i`, lookup returns that variant.
proof fn lemma_cmd_lookup_at(m: Seq<(Seq<char>, Command)>, name: Seq<char>, i: int)
    requires
        0 <= i < m.len(),
        m[i].0 == name,
        forall|j: int| 0 <= j < i ==> m[j].0 != name,
    ensures
        cmd_lookup(m, name) == Some(m[i].1),
    decreases i,
{
    if i > 0 {
        lemma_cmd_lookup_at(m.drop_first(), name, i - 1);
    }
}

/// If `name` occurs nowhere, lookup returns nothing.
proof fn lemma_cmd_lookup_absent(m: Seq<(Seq<char>, Command)>, name: Seq<char>)
    requires
        forall|j: int| 0 <= j < m.len() ==> m[j].0 != name,
    ensures
        cmd_lookup(m, name) is None,
    decreases m.len(),
{
    if m.len() > 0 {
        lemma_cmd_lookup_absent(m.drop_first(), name);
    }
}

/// The dispatch table as a value, in registration order.
pub fn command_map() -> (r: Vec<(String, Command)>)
    ensures
        r@.map_values(|p: (String, Command)| (p.0@, p.1)) == command_names(),
{
    let mut m: Vec<(String, Command)> = Vec::new();
    m.push((String::from_str("hello"), Command::Hello));
    m.push((String::from_str("help"), Command::Help));
    m.push((String::from_str("print_cmds"), Command::PrintCmds));
    m.push((String::from_str("ping"), Command::Ping));
    m.push((String::from_str("stats"), Command::Stats));
    m.push((String::from_str("rikka"), Command::Rikka));
    proof {
        assert(m@.map_values(|p: (String, Command)| (p.0@, p.1)) =~= command_names());
    }
    m
}

/// Looks a command name up in the dispatch table by exact match.
pub fn command_for(name: &str) -> (r: Option<Command>)
    ensures
        r == cmd_lookup(command_names(), name@),
{
    let m = command_map();
    let ghost mv = m@.map_values(|p: (String, Command)| (p.0@, p.1));
    let mut i: usize = 0;
    while i < m.len()
        invariant
            mv == command_names(),
            mv == m@.map_values(|p: (String, Command)| (p.0@, p.1)),
            m@.len() == mv.len(),
            i <= mv.len(),
            forall|j: int| 0 <= j < i ==> mv[j].0 != name@,
        decreases m.len() - i,
    {
        proof {
            assert(mv[i as int] == (m@[i as int].0@, m@[i as int].1));
        }
        if str_eq(m[i].0.as_str(), name) {
            proof {
                lemma_cmd_lookup_at(mv, name@, i as int);
            }
            return Some(m[i].1);
        }
        i = i + 1;
    }
    proof {
        lemma_cmd_lookup_absent(mv, name@);
    }
    None
}

/// Whether the message came from the watched account.
pub open spec fn is_rikka_spec(rikka_name: Seq<char>, usr: Option<User>) -> bool {
    match usr {
        Some(u) => match u.username {
            Some(n) => n@ == rikka_name,
            None => false,
        },
        None => false,
    }
}

/// Tests whether the sender is the watched account: a sender with a
/// username equal to the configured name, and nothing else.
pub fn is_rikka(config: &Config, usr: &Option<User>) -> (r: bool)
    ensures
        r == is_rikka_spec(config.rikka_name@, *usr),
{
    match usr {
        Some(u) => match &u.username {
            Some(n) => str_eq(n.as_str(), config.rikka_name.as_str()),
            None => false,
        },
        None => false,
    }
}

/// Digests the identity answer the host fetched at startup: the bot's
/// display name on success, a fatal startup error for a missing name or
/// any other payload.
pub fn on_identity(result: ApiResult) -> (r: Result<String, ErrorKind>)
    ensures
        match result {
            ApiResult::User(u) => match u.username {
                Some(n) => r == Ok::<String, ErrorKind>(n),
                None => r == Err::<String, ErrorKind>(ErrorKind::Startup),
            },
            _ => r == Err::<String, ErrorKind>(ErrorKind::Startup),
        },
{
    match result {
        ApiResult::User(u) => match u.username {
            Some(n) => Ok(n),
            None => Err(ErrorKind::Startup),
        },
        _ => Err(ErrorKind::Startup),
    }
}

// ---------------------------------------------------------------------------
// Command parsing.
// ---------------------------------------------------------------------------

/// The text opens a command.
pub open spec fn is_command_text(t: Seq<char>) -> bool {
    t.len() > 0 && t[0] == '/'
}

/// Starting with a slash is the same as having `"/"` as a prefix.
proof fn lemma_slash_prefix(s: Seq<char>)
    ensures
        is_prefix("/"@, s) <==> (s.len() > 0 && s[0] == '/'),
{
    reveal_strlit("/");
    assert("/"@.len() == 1);
    assert("/"@ =~= seq!['/']);
    if s.len() > 0 {
        assert(s.take(1) =~= seq![s[0]]);
        assert(s.take(1)[0] == s[0]);
    }
}

/// The command name a message text addresses to this bot, if any: the
/// first token without its slash, and without a trailing `@name` of this
/// bot; a token that names another bot is nobody's command here.
pub open spec fn parsed_command(text: Seq<char>, username: Seq<char>) -> Option<Seq<char>> {
    if !is_command_text(text) {
        None
    } else {
        let cmd = text.take(first_pos(text, ' ') as int);
        let tail = seq!['@'] + username;
        if (exists|i: int| 0 <= i < cmd.len() && cmd[i] == '@') && !is_suffix(tail, cmd) {
            None
        } else {
            let base = cmd.drop_first();
            if is_suffix(tail, base) {
                Some(base.take(base.len() - tail.len()))
            } else {
                Some(base)
            }
        }
    }
}

/// Reads the command a text addresses to this bot, exactly as
/// [`parsed_command`] describes.
pub fn parse_command(text: &str, username: &str) -> (r: Option<String>)
    ensures
        match r {
            Some(name) => parsed_command(text@, username@) == Some(name@),
            None => parsed_command(text@, username@) is None,
        },
{
    let n = text.unicode_len();
    if n == 0 {
        return None;
    }
    if text.get_char(0) != '/' {
        return None;
    }
    let end = match find_char(text, ' ') {
        Some(i) => i,
        None => n,
    };
    proof {
        lemma_first_pos_at(text@, ' ', end as int);
    }
    let cmd = text.substring_char(0, end);
    proof {
        assert(cmd@ =~= text@.take(first_pos(text@, ' ') as int));
        assert(first_pos(text@, ' ') >= 1);
    }
    let mut tail = String::from_str("@");
    tail.append(username);
    proof {
        reveal_strlit("@");
        assert(tail@ =~= seq!['@'] + username@);
    }
    let has_at = match find_char(cmd, '@') {
        Some(_) => true,
        None => false,
    };
    proof {
        if !has_at {
            assert(!(exists|i: int| 0 <= i < cmd@.len() && cmd@[i] == '@'));
        }
    }
    if has_at && !has_suffix(cmd, tail.as_str()) {
        return None;
    }
    let base = cmd.substring_char(1, end);
    proof {
        assert(base@ =~= cmd@.drop_first());
    }
    if has_suffix(base, tail.as_str()) {
        let keep = base.unicode_len() - tail.unicode_len();
        let name = base.substring_char(0, keep);
        proof {
            assert(name@ =~= base@.take(base@.len() - tail@.len()));
        }
        Some(String::from_str(name))
    } else {
        Some(String::from_str(base))
    }
}

// ---------------------------------------------------------------------------
// Replies.
// ---------------------------------------------------------------------------

/// One outbound API call the host must perform.
pub struct SendRequest {
    pub method: String,
    pub params: Vec<(String, String)>,
}

/// What handling one event asks of the host.
pub enum Effect {
    /// Perform the API call; its failure is the handler's own and is
    /// logged and swallowed at the dispatch boundary.
    Send(SendRequest),
    /// Write this snapshot to the state file, then report completion.
    WriteState(String),
}

/// The three parameters every textual reply carries.
pub open spec fn reply_params(msg: Message, text: Seq<char>) -> Seq<(Seq<char>, Seq<char>)> {
    seq![
        ("chat_id"@, dec_repr(msg.chat.id as int)),
        ("reply_to_message_id"@, dec_repr(msg.message_id as int)),
        ("text"@, text),
    ]
}

/// Builds the three parameters every textual reply carries.
fn build_reply_params(msg: &Message, text: String) -> (r: Vec<(String, String)>)
    ensures
        entries_view(r@) == reply_params(*msg, text@),
{
    let mut r: Vec<(String, String)> = Vec::new();
    r.push((String::from_str("chat_id"), format_i64(msg.chat.id)));
    r.push((String::from_str("reply_to_message_id"), format_i64(msg.message_id)));
    r.push((String::from_str("text"), text));
    proof {
        assert(entries_view(r@) =~= reply_params(*msg, text@));
    }
    r
}

/// The greeting's text.
pub open spec fn hello_text() -> Seq<char> {
    "Hello, Rikka Rikka Ri~"@
}

/// The greeting.
pub fn cmd_hello(msg: &Message) -> (r: SendRequest)
    ensures
        r.method@ == "sendMessage"@,
        entries_view(r.params@) == reply_params(*msg, hello_text()),
{
    SendRequest {
        method: String::from_str("sendMessage"),
        params: build_reply_params(msg, String::from_str("Hello, Rikka Rikka Ri~")),
    }
}

/// The help text, one command per slash-led line.
pub open spec fn help_str() -> Seq<char> {
    "\nHello, I am the bot that tries to become Rikka! (or at least one day ^_^)\n\n/hello - Say hello to Rikka!\n/help - Print this message.\n/ping - Is Rikka here now?\n/rikka - Rikka Rikka Ri!\n"@
}

/// The help text as a value.
pub fn help_text() -> (r: String)
    ensures
        r@ == help_str(),
{
    String::from_str(
        "\nHello, I am the bot that tries to become Rikka! (or at least one day ^_^)\n\n/hello - Say hello to Rikka!\n/help - Print this message.\n/ping - Is Rikka here now?\n/rikka - Rikka Rikka Ri!\n",
    )
}

/// The help reply.
pub fn cmd_help(msg: &Message) -> (r: SendRequest)
    ensures
        r.method@ == "sendMessage"@,
        entries_view(r.params@) == reply_params(*msg, help_str()),
{
    SendRequest {
        method: String::from_str("sendMessage"),
        params: build_reply_params(msg, help_text()),
    }
}

// ---------------------------------------------------------------------------
// The command list derived from the help text.
// ---------------------------------------------------------------------------

/// The text split at every newline.
pub open spec fn lines_of(s: Seq<char>) -> Seq<Seq<char>>
    decreases s.len(),
{
    if first_pos(s, '\n') < s.len() {
        seq![s.take(first_pos(s, '\n') as int)] + lines_of(s.skip(first_pos(s, '\n') as int + 1))
    } else {
        seq![s]
    }
}

/// The slash-led lines, each without its slash.
pub open spec fn command_lines(ls: Seq<Seq<char>>) -> Seq<Seq<char>>
    decreases ls.len(),
{
    if ls.len() == 0 {
        Seq::empty()
    } else {
        let rest = command_lines(ls.drop_first());
        if ls[0].len() > 0 && ls[0][0] == '/' {
            seq![ls[0].drop_first()] + rest
        } else {
            rest
        }
    }
}

/// The pieces joined with newlines.
pub open spec fn join_nl(xs: Seq<Seq<char>>) -> Seq<char>
    decreases xs.len(),
{
    if xs.len() == 0 {
        Seq::empty()
    } else if xs.len() == 1 {
        xs[0]
    } else {
        xs[0] + seq!['\n'] + join_nl(xs.drop_first())
    }
}

/// The command list the help text advertises, one name-and-description
/// per line.
pub open spec fn commands_text() -> Seq<char> {
    join_nl(command_lines(lines_of(help_str())))
}

/// The views of a list of strings.
pub open spec fn strings_view(v: Seq<String>) -> Seq<Seq<char>> {
    v.map_values(|s: String| s@)
}

/// Splits a text at every newline.
fn split_lines(s: &str) -> (r: Vec<String>)
    ensures
        strings_view(r@) == lines_of(s@),
    decreases s@.len(),
{
    let n = s.unicode_len();
    match find_char(s, '\n') {
        Some(i) => {
            proof {
                lemma_first_pos_at(s@, '\n', i as int);
            }
            let head = s.substring_char(0, i);
            let rest = s.substring_char(i + 1, n);
            proof {
                assert(rest@ =~= s@.skip(i as int + 1));
            }
            let mut r = split_lines(rest);
            r.insert(0, String::from_str(head));
            proof {
                assert(strings_view(r@) =~= seq![s@.take(i as int)] + lines_of(
                    s@.skip(i as int + 1),
                ));
            }
            r
        },
        None => {
            proof {
                lemma_first_pos_at(s@, '\n', s@.len() as int);
            }
            let mut r: Vec<String> = Vec::new();
            r.push(String::from_str(s));
            proof {
                assert(strings_view(r@) =~= seq![s@]);
            }
            r
        },
    }
}

/// Renders the slash-led lines from `i` on, joined with newlines, or
/// nothing when none are left.
fn render_cmds(lines: &Vec<String>, i: usize) -> (r: Option<String>)
    requires
        i <= lines.len(),
    ensures
        match r {
            Some(s) => command_lines(strings_view(lines@).skip(i as int)).len() > 0 && s@
                == join_nl(command_lines(strings_view(lines@).skip(i as int))),
            None => command_lines(strings_view(lines@).skip(i as int)).len() == 0,
        },
    decreases lines.len() - i,
{
    let ghost lv = strings_view(lines@);
    if i == lines.len() {
        proof {
            assert(lv.skip(i as int).len() == 0);
            assert(command_lines(lv.skip(i as int)).len() == 0);
        }
        return None;
    }
    proof {
        assert(lv[i as int] == lines@[i as int]@);
        assert(lv.skip(i as int)[0] == lv[i as int]);
        assert(lv.skip(i as int).drop_first() =~= lv.skip(i as int + 1));
    }
    let rest = render_cmds(lines, i + 1);
    let line = &lines[i];
    if has_prefix(line.as_str(), "/") {
        proof {
            lemma_slash_prefix(lv[i as int]);
        }
        let stripped = line.as_str().substring_char(1, line.unicode_len());
        proof {
            assert(stripped@ =~= lv[i as int].drop_first());
        }
        match rest {
            None => {
                proof {
                    assert(command_lines(lv.skip(i as int)) =~= seq![lv[i as int].drop_first()]);
                }
                Some(String::from_str(stripped))
            },
            Some(tail) => {
                let mut out = String::from_str(stripped);
                crate::strutil::push_char(&mut out, '\n');
                out.append(tail.as_str());
                proof {
                    let cl = command_lines(lv.skip(i as int));
                    assert(cl =~= seq![lv[i as int].drop_first()] + command_lines(
                        lv.skip(i as int + 1),
                    ));
                    assert(cl.drop_first() =~= command_lines(lv.skip(i as int + 1)));
                    assert(out@ =~= join_nl(cl));
                }
                Some(out)
            },
        }
    } else {
        proof {
            lemma_slash_prefix(lv[i as int]);
            assert(!(lv[i as int].len() > 0 && lv[i as int][0] == '/'));
            assert(command_lines(lv.skip(i as int)) =~= command_lines(lv.skip(i as int + 1)));
        }
        rest
    }
}

/// The hidden command list, for registering the commands elsewhere.
pub fn cmd_print_cmds(msg: &Message) -> (r: SendRequest)
    ensures
        r.method@ == "sendMessage"@,
        entries_view(r.params@) == reply_params(*msg, commands_text()),
{
    let help = help_text();
    let lines = split_lines(help.as_str());
    let text = match render_cmds(&lines, 0) {
        Some(s) => s,
        None => String::new(),
    };
    proof {
        assert(strings_view(lines@).skip(0) =~= strings_view(lines@));
        assert(text@ == commands_text());
    }
    SendRequest { method: String::from_str("sendMessage"), params: build_reply_params(msg, text) }
}

// ---------------------------------------------------------------------------
// Latency, statistics, stickers.
// ---------------------------------------------------------------------------

/// The reported latency: the current moment in milliseconds minus the
/// message's timestamp in milliseconds.
pub open spec fn latency_ms(now_sec: int, now_nsec: int, date: int) -> int {
    now_sec * 1000 + now_nsec / 1000000 - date * 1000
}

/// An integer squeezed into the 64-bit range.
pub open spec fn sat_i64(x: int) -> int {
    if x > i64::MAX {
        i64::MAX as int
    } else if x < i64::MIN {
        i64::MIN as int
    } else {
        x
    }
}

/// The ping reply's text for a given moment.
pub open spec fn ping_text(now_sec: int, now_nsec: int, date: int) -> Seq<char> {
    "Latency: "@ + dec_repr(sat_i64(latency_ms(now_sec, now_nsec, date))) + "ms"@
}

/// Relies on `time::OffsetDateTime::now_utc`: the current UTC moment as
/// its unix timestamp in seconds and the nanosecond within the second,
/// which the type keeps below one billion.
#[verifier::external_body]
fn now_unix() -> (r: (i64, u32))
    ensures
        r.1 < 1_000_000_000,
{
    let t = time::OffsetDateTime::now_utc();
    (t.unix_timestamp(), t.nanosecond())
}

/// The latency reply for an explicitly supplied moment.
pub fn cmd_ping(msg: &Message, now_sec: i64, now_nsec: u32) -> (r: SendRequest)
    ensures
        r.method@ == "sendMessage"@,
        entries_view(r.params@) == reply_params(
            *msg,
            ping_text(now_sec as int, now_nsec as int, msg.date as int),
        ),
{
    let wide: i128 = now_sec as i128 * 1000 + (now_nsec / 1000000) as i128 - msg.date as i128
        * 1000;
    let lat: i64 = if wide > i64::MAX as i128 {
        i64::MAX
    } else if wide < i64::MIN as i128 {
        i64::MIN
    } else {
        wide as i64
    };
    let mut text = String::from_str("Latency: ");
    let num = format_i64(lat);
    text.append(num.as_str());
    text.append("ms");
    proof {
        assert(lat as int == sat_i64(latency_ms(now_sec as int, now_nsec as int, msg.date as int)));
        assert(text@ =~= ping_text(now_sec as int, now_nsec as int, msg.date as int));
    }
    SendRequest {
        method: String::from_str("sendMessage"),
        params: build_reply_params(msg, text),
    }
}

/// The statistics reply's text: the whole store, fenced for markdown.
pub open spec fn stats_text(st: State) -> Seq<char> {
    "```\n"@ + ser_map(st.entries()) + "\n```"@
}

/// The statistics reply: the serialized store between code fences.
pub fn cmd_stats(state: &State, msg: &Message) -> (r: SendRequest)
    ensures
        r.method@ == "sendMessage"@,
        entries_view(r.params@) == reply_params(*msg, stats_text(*state)).push(
            ("parse_mode"@, "markdown"@),
        ),
{
    let mut text = String::from_str("```\n");
    let body = state.to_json();
    text.append(body.as_str());
    text.append("\n```");
    proof {
        assert(text@ =~= stats_text(*state));
    }
    let mut params = build_reply_params(msg, text);
    params.push((String::from_str("parse_mode"), String::from_str("markdown")));
    proof {
        assert(entries_view(params@) =~= reply_params(*msg, stats_text(*state)).push(
            ("parse_mode"@, "markdown"@),
        ));
    }
    SendRequest { method: String::from_str("sendMessage"), params }
}

/// The sticker reply: a sticker chosen with probability proportional to
/// its counter, or nothing when no stickers are recorded or the counters
/// do not reach the drawn target.
pub fn cmd_rikka(state: &State, msg: &Message) -> (r: Option<SendRequest>)
    requires
        state.wf(),
    ensures
        counter_of(state.entries(), total_key()) <= 0 ==> r is None,
        match r {
            Some(req) => {
                &&& req.method@ == "sendSticker"@
                &&& exists|t: i64|
                    0 <= t < counter_of(state.entries(), total_key()) && ((#[trigger] select_sticker(
                        state.entries(),
                        t,
                    )) matches Some(sid) && entries_view(req.params@) == seq![
                        ("chat_id"@, dec_repr(msg.chat.id as int)),
                        ("sticker"@, sid),
                    ])
            },
            None => counter_of(state.entries(), total_key()) <= 0 || exists|t: i64|
                0 <= t < counter_of(state.entries(), total_key()) && select_sticker(
                    state.entries(),
                    t,
                ) is None,
        },
{
    let picked = random_sticker(state);
    match picked {
        None => None,
        Some(sid) => {
            let ghost total = counter_of(state.entries(), total_key());
            let mut params: Vec<(String, String)> = Vec::new();
            params.push((String::from_str("chat_id"), format_i64(msg.chat.id)));
            params.push((String::from_str("sticker"), sid));
            proof {
                let t = choose|t: i64|
                    0 <= t < total && view_opt(picked) == select_sticker(state.entries(), t);
                assert(select_sticker(state.entries(), t) matches Some(s) && entries_view(params@)
                    =~= seq![("chat_id"@, dec_repr(msg.chat.id as int)), ("sticker"@, s)]);
            }
            Some(SendRequest { method: String::from_str("sendSticker"), params })
        },
    }
}

/// A counter one higher, stopping at the top of the range.
pub open spec fn bump(n: i64) -> i64 {
    if n == i64::MAX {
        n
    } else {
        (n + 1) as i64
    }
}

/// The store's entries after recording one sticker use: the sticker's
/// own counter one higher, then the running total one higher.
pub open spec fn record_spec_entries(es0: Seq<(Seq<char>, Seq<char>)>, fid: Seq<char>) -> Seq<
    (Seq<char>, Seq<char>),
> {
    let key = sticker_prefix() + fid;
    let c1 = bump(counter_of(es0, key));
    let mid = put_entries(es0, key, dec_repr(c1 as int));
    let c2 = bump(counter_of(mid, total_key()));
    put_entries(mid, total_key(), dec_repr(c2 as int))
}

/// A dirty count one higher, stopping at the top of the range.
pub open spec fn bump_dirty(d: u64) -> u64 {
    if d == u64::MAX {
        d
    } else {
        (d + 1) as u64
    }
}

/// Records one use of a sticker: its counter and the running total each
/// go up by one, and a save is issued when the writes since the last one
/// reach the threshold.  Returns the snapshot to write, if one is due.
pub fn record_sticker(state: &mut State, file_id: &str) -> (r: Option<String>)
    requires
        old(state).wf(),
    ensures
        ({
            let es2 = record_spec_entries(old(state).entries(), file_id@);
            let d2 = bump_dirty(bump_dirty(old(state).dirty()));
            let step = save_step((d2, old(state).save_pending()));
            &&& final(state).entries() == es2
            &&& final(state).wf()
            &&& final(state).file() == old(state).file()
            &&& (final(state).dirty(), final(state).save_pending()) == step.0
            &&& (r is Some) == step.1
            &&& (r matches Some(snap) ==> snap@ == ser_map(es2))
            &&& counter_of(final(state).entries(), total_key()) == bump(
                counter_of(
                    put_entries(
                        old(state).entries(),
                        sticker_prefix() + file_id@,
                        dec_repr(bump(counter_of(old(state).entries(), sticker_prefix() + file_id@)) as int),
                    ),
                    total_key(),
                ),
            )
        }),
{
    let key = String::from_str("sticker_").concat(file_id);
    proof {
        assert(key@ == sticker_prefix() + file_id@);
    }
    let num = match state.get_i64(key.as_str()) {
        Some(n) => n,
        None => 0,
    };
    let num2 = if num == i64::MAX {
        num
    } else {
        num + 1
    };
    let encoded = format_i64(num2);
    state.put(key.as_str(), encoded.as_str());
    let total = match state.get_i64("sticker_total") {
        Some(n) => n,
        None => 0,
    };
    let total2 = if total == i64::MAX {
        total
    } else {
        total + 1
    };
    let encoded_total = format_i64(total2);
    proof {
        assert("sticker_total"@ == total_key());
    }
    state.put("sticker_total", encoded_total.as_str());
    let r = state.save_if_needed();
    proof {
        crate::state::lemma_lookup_put_same(
            put_entries(
                old(state).entries(),
                key@,
                dec_repr(num2 as int),
            ),
            total_key(),
            dec_repr(total2 as int),
        );
    }
    r
}

// ---------------------------------------------------------------------------
// Message handling.
// ---------------------------------------------------------------------------

/// What a known command's effects must look like.
pub open spec fn command_effects_ok(
    c: Command,
    msg: Message,
    st: State,
    effects: Seq<Effect>,
) -> bool {
    match c {
        Command::Hello => effects.len() == 1 && (effects[0] matches Effect::Send(req)
            && req.method@ == "sendMessage"@ && entries_view(req.params@) == reply_params(
            msg,
            hello_text(),
        )),
        Command::Help => effects.len() == 1 && (effects[0] matches Effect::Send(req)
            && req.method@ == "sendMessage"@ && entries_view(req.params@) == reply_params(
            msg,
            help_str(),
        )),
        Command::PrintCmds => effects.len() == 1 && (effects[0] matches Effect::Send(req)
            && req.method@ == "sendMessage"@ && entries_view(req.params@) == reply_params(
            msg,
            commands_text(),
        )),
        Command::Ping => effects.len() == 1 && (effects[0] matches Effect::Send(req)
            && req.method@ == "sendMessage"@ && exists|s: int, ns: int|
            0 <= ns < 1_000_000_000 && entries_view(req.params@) == reply_params(
                msg,
                ping_text(s, ns, msg.date as int),
            )),
        Command::Stats => effects.len() == 1 && (effects[0] matches Effect::Send(req)
            && req.method@ == "sendMessage"@ && entries_view(req.params@) == reply_params(
            msg,
            stats_text(st),
        ).push(("parse_mode"@, "markdown"@))),
        Command::Rikka => {
            &&& effects.len() <= 1
            &&& (effects.len() == 1 ==> (effects[0] matches Effect::Send(req) && req.method@
                == "sendSticker"@ && exists|t: i64|
                0 <= t < counter_of(st.entries(), total_key()) && ((#[trigger] select_sticker(
                    st.entries(),
                    t,
                )) matches Some(sid) && entries_view(req.params@) == seq![
                    ("chat_id"@, dec_repr(msg.chat.id as int)),
                    ("sticker"@, sid),
                ])))
            &&& (counter_of(st.entries(), total_key()) <= 0 ==> effects.len() == 0)
        },
    }
}

/// Everything [`on_message`] promises of one handled message: a command
/// for this bot answers without touching the store; a sticker from the
/// watched account is counted, with a snapshot to write exactly when the
/// coalesced save policy issues one; anything else changes nothing and
/// asks nothing.
pub open spec fn message_outcome_ok(
    old_st: State,
    new_st: State,
    rikka_name: Seq<char>,
    username: Seq<char>,
    msg: Message,
    effects: Seq<Effect>,
) -> bool {
    match msg.text {
        Some(t) => {
            &&& new_st == old_st
            &&& if !is_command_text(t@) {
                effects.len() == 0
            } else {
                match parsed_command(t@, username) {
                    Some(name) => match cmd_lookup(command_names(), name) {
                        Some(c) => command_effects_ok(c, msg, old_st, effects),
                        None => effects.len() == 0,
                    },
                    None => effects.len() == 0,
                }
            }
        },
        None => {
            match msg.sticker {
                Some(st) => {
                    if is_rikka_spec(rikka_name, msg.from) {
                        let es2 = record_spec_entries(old_st.entries(), st.file_id@);
                        let d2 = bump_dirty(bump_dirty(old_st.dirty()));
                        let step = save_step((d2, old_st.save_pending()));
                        &&& new_st.entries() == es2
                        &&& new_st.file() == old_st.file()
                        &&& (new_st.dirty(), new_st.save_pending()) == step.0
                        &&& (effects.len() == 1) == step.1
                        &&& (step.1 ==> (effects[0] matches Effect::WriteState(snap) && snap@
                            == ser_map(es2)))
                        &&& (!step.1 ==> effects.len() == 0)
                    } else {
                        new_st == old_st && effects.len() == 0
                    }
                },
                None => new_st == old_st && effects.len() == 0,
            }
        },
    }
}

/// Handles one message: a command for this bot becomes its reply, a
/// sticker from the watched account is recorded, anything else is
/// ignored.  Only the sticker path touches the store.
pub fn on_message(state: &mut State, config: &Config, username: &str, msg: &Message) -> (effects:
    Vec<Effect>)
    requires
        old(state).wf(),
    ensures
        final(state).wf(),
        message_outcome_ok(
            *old(state),
            *final(state),
            config.rikka_name@,
            username@,
            *msg,
            effects@,
        ),
{
    let mut effects: Vec<Effect> = Vec::new();
    match &msg.text {
        Some(text) => {
            if !has_prefix(text.as_str(), "/") {
                proof {
                    lemma_slash_prefix(text@);
                }
                return effects;
            }
            proof {
                lemma_slash_prefix(text@);
                assert(is_command_text(text@));
            }
            let name = match parse_command(text.as_str(), username) {
                Some(n) => n,
                None => {
                    return effects;
                },
            };
            let cmd = match command_for(name.as_str()) {
                Some(c) => c,
                None => {
                    return effects;
                },
            };
            match cmd {
                Command::Hello => {
                    effects.push(Effect::Send(cmd_hello(msg)));
                },
                Command::Help => {
                    effects.push(Effect::Send(cmd_help(msg)));
                },
                Command::PrintCmds => {
                    effects.push(Effect::Send(cmd_print_cmds(msg)));
                },
                Command::Ping => {
                    let now = now_unix();
                    effects.push(Effect::Send(cmd_ping(msg, now.0, now.1)));
                },
                Command::Stats => {
                    effects.push(Effect::Send(cmd_stats(state, msg)));
                },
                Command::Rikka => {
                    match cmd_rikka(state, msg) {
                        Some(req) => {
                            effects.push(Effect::Send(req));
                        },
                        None => {},
                    }
                },
            }
            effects
        },
        None => {
            match &msg.sticker {
                Some(st) => {
                    if is_rikka(config, &msg.from) {
                        match record_sticker(state, st.file_id.as_str()) {
                            Some(snap) => {
                                effects.push(Effect::WriteState(snap));
                            },
                            None => {},
                        }
                    }
                    effects
                },
                None => effects,
            }
        },
    }
}

/// Routes one event: a message is handled, anything else is ignored.
pub fn on_update(
    state: &mut State,
    config: &Config,
    username: &str,
    update: &crate::api::Update,
) -> (effects: Vec<Effect>)
    requires
        old(state).wf(),
    ensures
        final(state).wf(),
        match update.message {
            Some(m) => message_outcome_ok(
                *old(state),
                *final(state),
                config.rikka_name@,
                username@,
                m,
                effects@,
            ),
            None => *final(state) == *old(state) && effects@.len() == 0,
        },
{
    match &update.message {
        Some(m) => on_message(state, config, username, m),
        None => Vec::new(),
    }
}

} // verus!
