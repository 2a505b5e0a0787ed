//! Plain data carried across the remote-event boundary.
//!
//! The wire encoding itself is the host's concern; the library only sees
//! these decoded values.

use crate::codec::entries_view;
use crate::strutil::push_char;
use vstd::prelude::*;

verus! {

/// One incoming message, as decoded from a fetched event.
pub struct Message {
    pub message_id: i64,
    pub chat: Chat,
    pub text: Option<String>,
    pub sticker: Option<Sticker>,
    pub from: Option<User>,
    pub date: i64,
}

/// The conversation a message belongs to.
pub struct Chat {
    pub id: i64,
}

/// The sender of a message.
pub struct User {
    pub id: i64,
    pub username: Option<String>,
}

/// A sticker attached to a message.
pub struct Sticker {
    pub file_id: String,
}

/// One unit of incoming work, carrying a monotonically increasing id.
pub struct Update {
    pub update_id: i64,
    pub message: Option<Message>,
}

/// The envelope every remote call answers with.
pub struct Response {
    pub ok: bool,
    pub result: Option<ApiResult>,
}

/// The payload of a successful remote call.
pub enum ApiResult {
    Updates(Vec<Update>),
    User(User),
    Message(Message),
    Nothing,
}

/// The payload of an answer envelope: the enclosed result exactly when
/// the remote service reported success and enclosed one, and a transient
/// fetch error for a refusal or an empty envelope.
pub fn response_payload(resp: Response) -> (r: Result<ApiResult, crate::ErrorKind>)
    ensures
        match resp.result {
            Some(payload) => if resp.ok {
                r == Ok::<ApiResult, crate::ErrorKind>(payload)
            } else {
                r == Err::<ApiResult, crate::ErrorKind>(crate::ErrorKind::TransientFetch)
            },
            None => r == Err::<ApiResult, crate::ErrorKind>(crate::ErrorKind::TransientFetch),
        },
{
    if !resp.ok {
        return Err(crate::ErrorKind::TransientFetch);
    }
    match resp.result {
        Some(payload) => Ok(payload),
        None => Err(crate::ErrorKind::TransientFetch),
    }
}

// ---------------------------------------------------------------------------
// Request encoding: query strings and method URLs.
// ---------------------------------------------------------------------------

/// What the percent encoder yields on a string: a function of the
/// characters alone, fixed by the encoding set.
pub uninterp spec fn percent_encoded(s: Seq<char>) -> Seq<char>;

/// Relies on `percent_encoding::utf8_percent_encode` with the
/// `NON_ALPHANUMERIC` set: the encoding of a string depends on its
/// characters alone, and an empty string encodes to nothing.
#[verifier::external_body]
fn percent_encode_str(s: &str) -> (r: String)
    ensures
        r@ == percent_encoded(s@),
        s@.len() == 0 ==> r@.len() == 0,
{
    percent_encoding::utf8_percent_encode(s, percent_encoding::NON_ALPHANUMERIC).to_string()
}

/// One `key=value` pair, the value percent-encoded.
pub open spec fn query_pair(k: Seq<char>, v: Seq<char>) -> Seq<char> {
    k + seq!['='] + percent_encoded(v)
}

/// Every pair after the first, each preceded by an ampersand.
pub open spec fn query_tail(ps: Seq<(Seq<char>, Seq<char>)>) -> Seq<char>
    decreases ps.len(),
{
    if ps.len() == 0 {
        Seq::empty()
    } else {
        seq!['&'] + query_pair(ps[0].0, ps[0].1) + query_tail(ps.drop_first())
    }
}

/// The whole query string, pairs in parameter order.
pub open spec fn query_string_of(ps: Seq<(Seq<char>, Seq<char>)>) -> Seq<char> {
    if ps.len() == 0 {
        Seq::empty()
    } else {
        query_pair(ps[0].0, ps[0].1) + query_tail(ps.drop_first())
    }
}

/// The serialized tail of a parameter concatenation splits at the join.
proof fn lemma_query_tail_concat(a: Seq<(Seq<char>, Seq<char>)>, b: Seq<(Seq<char>, Seq<char>)>)
    ensures
        query_tail(a + b) == query_tail(a) + query_tail(b),
    decreases a.len(),
{
    if a.len() == 0 {
        assert(a + b =~= b);
        assert(query_tail(a) + query_tail(b) =~= query_tail(b));
    } else {
        lemma_query_tail_concat(a.drop_first(), b);
        assert((a + b).drop_first() =~= a.drop_first() + b);
        assert((a + b)[0] == a[0]);
        assert(query_tail(a + b) =~= query_tail(a) + query_tail(b));
    }
}

/// What a single pair adds to the tail.
proof fn lemma_query_tail_single(e: (Seq<char>, Seq<char>))
    ensures
        query_tail(seq![e]) == seq!['&'] + query_pair(e.0, e.1),
{
    assert(seq![e].drop_first() =~= Seq::<(Seq<char>, Seq<char>)>::empty());
    assert(query_tail(Seq::<(Seq<char>, Seq<char>)>::empty()) =~= Seq::<char>::empty());
    assert(query_tail(seq![e]) =~= seq!['&'] + query_pair(e.0, e.1) + Seq::<char>::empty());
    assert(query_tail(seq![e]) =~= seq!['&'] + query_pair(e.0, e.1));
}

/// Encodes the parameters, in order, as an HTTP query string: keys as
/// they are, values percent-encoded, pairs joined with ampersands.
pub fn build_query_string(params: &Vec<(String, String)>) -> (r: String)
    ensures
        r@ == query_string_of(entries_view(params@)),
{
    let ghost pv = entries_view(params@);
    let mut out = String::new();
    let mut i: usize = 0;
    while i < params.len()
        invariant
            pv == entries_view(params@),
            params@.len() == pv.len(),
            i <= pv.len(),
            i == 0 ==> out@ == Seq::<char>::empty(),
            i > 0 ==> out@ == query_pair(pv[0].0, pv[0].1) + query_tail(pv.subrange(1, i as int)),
        decreases params.len() - i,
    {
        proof {
            assert(pv[i as int] == (params@[i as int].0@, params@[i as int].1@));
        }
        if i > 0 {
            push_char(&mut out, '&');
        }
        let ghost before = out@;
        out.append(params[i].0.as_str());
        push_char(&mut out, '=');
        let enc = percent_encode_str(params[i].1.as_str());
        out.append(enc.as_str());
        proof {
            assert(out@ =~= before + query_pair(pv[i as int].0, pv[i as int].1));
            if i == 0 {
                assert(pv.subrange(1, 1) =~= Seq::<(Seq<char>, Seq<char>)>::empty());
                assert(out@ =~= query_pair(pv[0].0, pv[0].1) + query_tail(pv.subrange(1, 1)));
            } else {
                assert(pv.subrange(1, i as int + 1) =~= pv.subrange(1, i as int) + seq![
                    pv[i as int],
                ]);
                lemma_query_tail_concat(pv.subrange(1, i as int), seq![pv[i as int]]);
                lemma_query_tail_single(pv[i as int]);
                assert(out@ =~= query_pair(pv[0].0, pv[0].1) + query_tail(
                    pv.subrange(1, i as int + 1),
                ));
            }
        }
        i = i + 1;
    }
    proof {
        if pv.len() > 0 {
            assert(pv.subrange(1, pv.len() as int) =~= pv.drop_first());
        }
    }
    out
}

/// The URL of an API method for a given credential token.
pub fn uri_for_method(token: &str, method: &str) -> (r: String)
    ensures
        r@ == "https://api.telegram.org/bot"@ + token@ + "/"@ + method@,
{
    let mut out = String::from_str("https://api.telegram.org/bot");
    out.append(token);
    out.append("/");
    out.append(method);
    proof {
        assert(out@ =~= "https://api.telegram.org/bot"@ + token@ + "/"@ + method@);
    }
    out
}

/// The URL of an API method with its query parameters attached.
pub fn uri_for_method_with_params(token: &str, method: &str, params: &Vec<(String, String)>) -> (r:
    String)
    ensures
        r@ == "https://api.telegram.org/bot"@ + token@ + "/"@ + method@ + "?"@ + query_string_of(
            entries_view(params@),
        ),
{
    let mut out = uri_for_method(token, method);
    out.append("?");
    let qs = build_query_string(params);
    out.append(qs.as_str());
    proof {
        assert(out@ =~= "https://api.telegram.org/bot"@ + token@ + "/"@ + method@ + "?"@
            + query_string_of(entries_view(params@)));
    }
    out
}

} // verus!
