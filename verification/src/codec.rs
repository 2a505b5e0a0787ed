//! The snapshot format of the durable key-value store.
//!
//! A snapshot is one JSON-style object mapping string keys to string
//! values: `{"k":"v","k2":"v2"}`.  Inside a quoted string only `"` and `\`
//! are escaped, each with a single backslash; every other character stands
//! for itself.  The encoder is a pure function of the entry sequence, and
//! the decoder inverts it exactly, so a stored snapshot always loads back
//! to the map it was taken from.

use crate::strutil::push_char;
use crate::strutil::str_chars;
use vstd::prelude::*;

verus! {

// ---------------------------------------------------------------------------
// Encoding, as a mathematical function of the entry sequence.
// ---------------------------------------------------------------------------

/// How one character appears inside a quoted string.
pub open spec fn esc_char(c: char) -> Seq<char> {
    if c == '"' {
        seq!['\\', '"']
    } else if c == '\\' {
        seq!['\\', '\\']
    } else {
        seq![c]
    }
}

/// How a whole string appears inside its quotes.
pub open spec fn esc(s: Seq<char>) -> Seq<char>
    decreases s.len(),
{
    if s.len() == 0 {
        Seq::empty()
    } else {
        esc_char(s[0]) + esc(s.drop_first())
    }
}

/// A string with its quotes.
pub open spec fn quoted(s: Seq<char>) -> Seq<char> {
    seq!['"'] + esc(s) + seq!['"']
}

/// One `"key":"value"` pair.
pub open spec fn ser_pair(k: Seq<char>, v: Seq<char>) -> Seq<char> {
    quoted(k) + seq![':'] + quoted(v)
}

/// Every entry after the first, each preceded by a comma.
pub open spec fn ser_tail(es: Seq<(Seq<char>, Seq<char>)>) -> Seq<char>
    decreases es.len(),
{
    if es.len() == 0 {
        Seq::empty()
    } else {
        seq![','] + ser_pair(es[0].0, es[0].1) + ser_tail(es.drop_first())
    }
}

/// The whole snapshot: entries in sequence order, wrapped in braces.
pub open spec fn ser_map(es: Seq<(Seq<char>, Seq<char>)>) -> Seq<char> {
    if es.len() == 0 {
        seq!['{'] + seq!['}']
    } else {
        seq!['{'] + ser_pair(es[0].0, es[0].1) + ser_tail(es.drop_first()) + seq!['}']
    }
}

// ---------------------------------------------------------------------------
// Facts about the encoding.
// ---------------------------------------------------------------------------

/// A single character escapes to its escaped form.
pub proof fn lemma_esc_single(c: char)
    ensures
        esc(seq![c]) == esc_char(c),
{
    assert(seq![c].drop_first() =~= Seq::<char>::empty());
    assert(esc(Seq::<char>::empty()) =~= Seq::<char>::empty());
    assert(esc(seq![c]) =~= esc_char(c) + Seq::<char>::empty());
    assert(esc(seq![c]) =~= esc_char(c));
}

/// A single entry serializes to a comma and its pair.
pub proof fn lemma_ser_tail_single(e: (Seq<char>, Seq<char>))
    ensures
        ser_tail(seq![e]) == seq![','] + ser_pair(e.0, e.1),
{
    assert(seq![e].drop_first() =~= Seq::<(Seq<char>, Seq<char>)>::empty());
    assert(ser_tail(Seq::<(Seq<char>, Seq<char>)>::empty()) =~= Seq::<char>::empty());
    assert(ser_tail(seq![e]) =~= seq![','] + ser_pair(e.0, e.1) + Seq::<char>::empty());
    assert(ser_tail(seq![e]) =~= seq![','] + ser_pair(e.0, e.1));
}

/// Escaping distributes over concatenation.
pub proof fn lemma_esc_concat(a: Seq<char>, b: Seq<char>)
    ensures
        esc(a + b) == esc(a) + esc(b),
    decreases a.len(),
{
    if a.len() == 0 {
        assert(a + b =~= b);
        assert(esc(a) + esc(b) =~= esc(b));
    } else {
        lemma_esc_concat(a.drop_first(), b);
        assert((a + b).drop_first() =~= a.drop_first() + b);
        assert(esc(a + b) =~= esc(a) + esc(b));
    }
}

/// The serialized tail of a concatenation splits at the same point.
pub proof fn lemma_ser_tail_concat(a: Seq<(Seq<char>, Seq<char>)>, b: Seq<(Seq<char>, Seq<char>)>)
    ensures
        ser_tail(a + b) == ser_tail(a) + ser_tail(b),
    decreases a.len(),
{
    if a.len() == 0 {
        assert(a + b =~= b);
        assert(ser_tail(a) + ser_tail(b) =~= ser_tail(b));
    } else {
        lemma_ser_tail_concat(a.drop_first(), b);
        assert((a + b).drop_first() =~= a.drop_first() + b);
        assert((a + b)[0] == a[0]);
        assert(ser_tail(a + b) =~= ser_tail(a) + ser_tail(b));
    }
}

// ---------------------------------------------------------------------------
// Executable encoder.
// ---------------------------------------------------------------------------

/// Appends the escaped form of `s` to `out`.
fn escape_into(out: &mut String, s: &str)
    ensures
        final(out)@ == old(out)@ + esc(s@),
{
    let n = s.unicode_len();
    let mut i: usize = 0;
    while i < n
        invariant
            n == s@.len(),
            i <= n,
            out@ == old(out)@ + esc(s@.take(i as int)),
        decreases n - i,
    {
        let c = s.get_char(i);
        if c == '"' {
            push_char(out, '\\');
            push_char(out, '"');
        } else if c == '\\' {
            push_char(out, '\\');
            push_char(out, '\\');
        } else {
            push_char(out, c);
        }
        proof {
            assert(s@.take(i as int + 1) =~= s@.take(i as int) + seq![s@[i as int]]);
            lemma_esc_concat(s@.take(i as int), seq![s@[i as int]]);
            lemma_esc_single(s@[i as int]);
            assert(out@ =~= old(out)@ + esc(s@.take(i as int + 1)));
        }
        i = i + 1;
    }
    proof {
        assert(s@.take(n as int) =~= s@);
    }
}

/// Appends `"s"`, with its contents escaped, to `out`.
fn quote_into(out: &mut String, s: &str)
    ensures
        final(out)@ == old(out)@ + quoted(s@),
{
    push_char(out, '"');
    escape_into(out, s);
    push_char(out, '"');
    proof {
        assert(out@ =~= old(out)@ + quoted(s@));
    }
}

/// The view of an entry list, key and value views paired up.
pub open spec fn entries_view(es: Seq<(String, String)>) -> Seq<(Seq<char>, Seq<char>)> {
    es.map_values(|p: (String, String)| (p.0@, p.1@))
}

/// Encodes the entries, in their sequence order, as one snapshot string.
pub fn serialize_entries(entries: &Vec<(String, String)>) -> (r: String)
    ensures
        r@ == ser_map(entries_view(entries@)),
{
    let ghost ev = entries_view(entries@);
    let mut out = String::new();
    push_char(&mut out, '{');
    let mut i: usize = 0;
    while i < entries.len()
        invariant
            entries.len() == ev.len(),
            forall|j: int| 0 <= j < ev.len() ==> ev[j] == (entries@[j].0@, entries@[j].1@),
            i <= entries.len(),
            i == 0 ==> out@ == seq!['{'],
            i > 0 ==> out@ == seq!['{'] + ser_pair(ev[0].0, ev[0].1) + ser_tail(ev.subrange(1, i as int)),
        decreases entries.len() - i,
    {
        if i > 0 {
            push_char(&mut out, ',');
        }
        let ghost before = out@;
        quote_into(&mut out, entries[i].0.as_str());
        push_char(&mut out, ':');
        quote_into(&mut out, entries[i].1.as_str());
        proof {
            assert(out@ =~= before + ser_pair(ev[i as int].0, ev[i as int].1));
            if i == 0 {
                assert(ev.subrange(1, 1) =~= Seq::<(Seq<char>, Seq<char>)>::empty());
                assert(out@ =~= seq!['{'] + ser_pair(ev[0].0, ev[0].1) + ser_tail(ev.subrange(1, 1)));
            } else {
                assert(ev.subrange(1, i as int + 1) =~= ev.subrange(1, i as int) + seq![ev[i as int]]);
                lemma_ser_tail_concat(ev.subrange(1, i as int), seq![ev[i as int]]);
                lemma_ser_tail_single(ev[i as int]);
                assert(out@ =~= seq!['{'] + ser_pair(ev[0].0, ev[0].1) + ser_tail(ev.subrange(1, i as int + 1)));
            }
        }
        i = i + 1;
    }
    push_char(&mut out, '}');
    proof {
        if ev.len() == 0 {
            assert(out@ =~= ser_map(ev));
        } else {
            assert(ev.subrange(1, ev.len() as int) =~= ev.drop_first());
            assert(out@ =~= ser_map(ev));
        }
    }
    out
}

// ---------------------------------------------------------------------------
// Decoding, as a mathematical function of the snapshot text.
// ---------------------------------------------------------------------------

/// Reads a quoted string's contents, starting just after the opening
/// quote.  Returns the contents and what follows the closing quote.
pub open spec fn parse_str(s: Seq<char>) -> Option<(Seq<char>, Seq<char>)>
    decreases s.len(),
{
    if s.len() == 0 {
        None
    } else if s[0] == '"' {
        Some((Seq::empty(), s.drop_first()))
    } else if s[0] == '\\' {
        if s.len() < 2 {
            None
        } else if s[1] == '"' || s[1] == '\\' {
            match parse_str(s.subrange(2, s.len() as int)) {
                Some((c, r)) => Some((seq![s[1]] + c, r)),
                None => None,
            }
        } else {
            None
        }
    } else {
        match parse_str(s.drop_first()) {
            Some((c, r)) => Some((seq![s[0]] + c, r)),
            None => None,
        }
    }
}

/// Reads one `"key":"value"` pair.  Returns the pair and what follows it.
pub open spec fn parse_pair(s: Seq<char>) -> Option<((Seq<char>, Seq<char>), Seq<char>)> {
    if s.len() == 0 || s[0] != '"' {
        None
    } else {
        match parse_str(s.drop_first()) {
            None => None,
            Some((k, r1)) => {
                if r1.len() < 2 || r1[0] != ':' || r1[1] != '"' {
                    None
                } else {
                    match parse_str(r1.subrange(2, r1.len() as int)) {
                        None => None,
                        Some((v, r2)) => Some(((k, v), r2)),
                    }
                }
            },
        }
    }
}

/// Reads the entries after the first one, each preceded by a comma, up to
/// and including the closing brace.  `fuel` bounds the recursion; any
/// value of at least `s.len()` gives the same answer.
pub open spec fn parse_tail(s: Seq<char>, fuel: nat) -> Option<(Seq<(Seq<char>, Seq<char>)>, Seq<char>)>
    decreases fuel,
{
    if s.len() == 0 {
        None
    } else if s[0] == '}' {
        Some((Seq::empty(), s.drop_first()))
    } else if s[0] == ',' && fuel > 0 {
        match parse_pair(s.drop_first()) {
            None => None,
            Some(((k, v), r)) => match parse_tail(r, (fuel - 1) as nat) {
                None => None,
                Some((es, r2)) => Some((seq![(k, v)] + es, r2)),
            },
        }
    } else {
        None
    }
}

/// Reads a whole snapshot.  Accepts exactly the strings the encoder
/// produces; anything else is malformed.
pub open spec fn parse_map(s: Seq<char>) -> Option<Seq<(Seq<char>, Seq<char>)>> {
    if s.len() == 0 || s[0] != '{' {
        None
    } else {
        let body = s.drop_first();
        if body.len() > 0 && body[0] == '}' {
            if body.len() == 1 {
                Some(Seq::empty())
            } else {
                None
            }
        } else {
            match parse_pair(body) {
                None => None,
                Some(((k, v), r)) => match parse_tail(r, r.len()) {
                    None => None,
                    Some((es, r2)) => if r2.len() == 0 {
                        Some(seq![(k, v)] + es)
                    } else {
                        None
                    },
                },
            }
        }
    }
}

// ---------------------------------------------------------------------------
// Facts about the decoding.
// ---------------------------------------------------------------------------

/// A successful string read consumes at least the closing quote.
pub proof fn lemma_parse_str_shrinks(s: Seq<char>)
    ensures
        parse_str(s) matches Some(p) ==> p.1.len() < s.len(),
    decreases s.len(),
{
    if s.len() == 0 {
    } else if s[0] == '"' {
    } else if s[0] == '\\' {
        if s.len() >= 2 && (s[1] == '"' || s[1] == '\\') {
            lemma_parse_str_shrinks(s.subrange(2, s.len() as int));
        }
    } else {
        lemma_parse_str_shrinks(s.drop_first());
    }
}

/// A successful pair read consumes at least one character.
pub proof fn lemma_parse_pair_shrinks(s: Seq<char>)
    ensures
        parse_pair(s) matches Some(p) ==> p.1.len() < s.len(),
{
    if s.len() > 0 && s[0] == '"' {
        lemma_parse_str_shrinks(s.drop_first());
        if let Some((k, r1)) = parse_str(s.drop_first()) {
            if r1.len() >= 2 && r1[0] == ':' && r1[1] == '"' {
                lemma_parse_str_shrinks(r1.subrange(2, r1.len() as int));
            }
        }
    }
}

/// Any fuel of at least `s.len()` decodes the tail the same way.
pub proof fn lemma_parse_tail_fuel(s: Seq<char>, f1: nat, f2: nat)
    ensures
        f1 >= s.len() && f2 >= s.len() ==> parse_tail(s, f1) == parse_tail(s, f2),
    decreases s.len(),
{
    if f1 >= s.len() && f2 >= s.len() {
        if s.len() == 0 {
        } else if s[0] == '}' {
        } else if s[0] == ',' {
            lemma_parse_pair_shrinks(s.drop_first());
            if let Some(((k, v), r)) = parse_pair(s.drop_first()) {
                lemma_parse_tail_fuel(r, (f1 - 1) as nat, (f2 - 1) as nat);
            }
        }
    }
}

/// Reading an escaped string back yields the original string.
pub proof fn lemma_parse_str_esc(s: Seq<char>, rest: Seq<char>)
    ensures
        parse_str(esc(s) + seq!['"'] + rest) == Some((s, rest)),
    decreases s.len(),
{
    if s.len() == 0 {
        assert(esc(s) + seq!['"'] + rest =~= seq!['"'] + rest);
        assert((seq!['"'] + rest)[0] == '"');
        assert((seq!['"'] + rest).drop_first() =~= rest);
    } else {
        let c = s[0];
        let t = s.drop_first();
        lemma_parse_str_esc(t, rest);
        let inner = esc(t) + seq!['"'] + rest;
        let total = esc(s) + seq!['"'] + rest;
        assert(esc(s) =~= esc_char(c) + esc(t));
        if c == '"' || c == '\\' {
            assert(total =~= seq!['\\', c] + inner);
            assert(total[0] == '\\');
            assert(total[1] == c);
            assert(total.len() >= 2);
            assert(total.subrange(2, total.len() as int) =~= inner);
            assert(seq![c] + t =~= s);
        } else {
            assert(total =~= seq![c] + inner);
            assert(total[0] == c);
            assert(total.drop_first() =~= inner);
            assert(seq![c] + t =~= s);
        }
    }
}

/// Reading a serialized pair back yields the original pair.
pub proof fn lemma_parse_pair_ser(k: Seq<char>, v: Seq<char>, rest: Seq<char>)
    ensures
        parse_pair(ser_pair(k, v) + rest) == Some(((k, v), rest)),
{
    let total = ser_pair(k, v) + rest;
    let after_k = seq![':'] + seq!['"'] + esc(v) + seq!['"'] + rest;
    assert(total =~= seq!['"'] + (esc(k) + seq!['"'] + after_k));
    assert(total[0] == '"');
    assert(total.drop_first() =~= esc(k) + seq!['"'] + after_k);
    lemma_parse_str_esc(k, after_k);
    assert(after_k[0] == ':');
    assert(after_k[1] == '"');
    assert(after_k.subrange(2, after_k.len() as int) =~= esc(v) + seq!['"'] + rest);
    lemma_parse_str_esc(v, rest);
}

/// Reading a serialized tail back, with enough fuel, yields the entries.
pub proof fn lemma_parse_tail_ser(es: Seq<(Seq<char>, Seq<char>)>, fuel: nat)
    ensures
        fuel >= es.len() ==> parse_tail(ser_tail(es) + seq!['}'], fuel) == Some((es, Seq::<char>::empty())),
    decreases es.len(),
{
    if fuel >= es.len() {
        let total = ser_tail(es) + seq!['}'];
        if es.len() == 0 {
            assert(total =~= seq!['}']);
            assert(total[0] == '}');
            assert(total.drop_first() =~= Seq::<char>::empty());
            assert(es =~= Seq::<(Seq<char>, Seq<char>)>::empty());
        } else {
            let e = es[0];
            let t = es.drop_first();
            assert(total =~= seq![','] + (ser_pair(e.0, e.1) + (ser_tail(t) + seq!['}'])));
            assert(total[0] == ',');
            assert(total[0] != '}');
            assert(total.drop_first() =~= ser_pair(e.0, e.1) + (ser_tail(t) + seq!['}']));
            lemma_parse_pair_ser(e.0, e.1, ser_tail(t) + seq!['}']);
            lemma_parse_tail_ser(t, (fuel - 1) as nat);
            assert(seq![e] + t =~= es);
        }
    }
}

/// The tail of a serialization is at least as long as its entry count.
pub proof fn lemma_ser_tail_len(es: Seq<(Seq<char>, Seq<char>)>)
    ensures
        ser_tail(es).len() >= es.len(),
    decreases es.len(),
{
    if es.len() > 0 {
        lemma_ser_tail_len(es.drop_first());
    }
}

// ---------------------------------------------------------------------------
// Executable decoder.
// ---------------------------------------------------------------------------

/// The characters of `s` from position `i` on.
pub open spec fn suffix(s: Seq<char>, i: int) -> Seq<char>
    recommends
        0 <= i <= s.len(),
{
    s.subrange(i, s.len() as int)
}

/// Executable form of [`parse_str`], reading from `chars` at `pos`.
fn parse_str_exec(chars: &Vec<char>, pos: usize) -> (r: Option<(String, usize)>)
    requires
        pos <= chars.len(),
    ensures
        match r {
            Some(p) => p.1 <= chars.len() && parse_str(suffix(chars@, pos as int)) == Some(
                (p.0@, suffix(chars@, p.1 as int)),
            ),
            None => parse_str(suffix(chars@, pos as int)) is None,
        },
    decreases chars.len() - pos,
{
    let ghost s = suffix(chars@, pos as int);
    if pos == chars.len() {
        return None;
    }
    let c = chars[pos];
    proof {
        assert(s[0] == chars@[pos as int]);
    }
    if c == '"' {
        proof {
            assert(s.drop_first() =~= suffix(chars@, pos as int + 1));
        }
        let empty = String::new();
        return Some((empty, pos + 1));
    }
    if c == '\\' {
        if pos + 1 == chars.len() {
            return None;
        }
        let c2 = chars[pos + 1];
        proof {
            assert(s[1] == chars@[pos as int + 1]);
        }
        if c2 == '"' || c2 == '\\' {
            proof {
                assert(s.subrange(2, s.len() as int) =~= suffix(chars@, pos as int + 2));
            }
            match parse_str_exec(chars, pos + 2) {
                None => None,
                Some((inner, np)) => {
                    let mut content = String::new();
                    push_char(&mut content, c2);
                    content.append(inner.as_str());
                    proof {
                        assert(content@ =~= seq![s[1]] + inner@);
                    }
                    Some((content, np))
                },
            }
        } else {
            None
        }
    } else {
        proof {
            assert(s.drop_first() =~= suffix(chars@, pos as int + 1));
        }
        match parse_str_exec(chars, pos + 1) {
            None => None,
            Some((inner, np)) => {
                let mut content = String::new();
                push_char(&mut content, c);
                content.append(inner.as_str());
                proof {
                    assert(content@ =~= seq![s[0]] + inner@);
                }
                Some((content, np))
            },
        }
    }
}

/// Executable form of [`parse_pair`], reading from `chars` at `pos`.
fn parse_pair_exec(chars: &Vec<char>, pos: usize) -> (r: Option<((String, String), usize)>)
    requires
        pos <= chars.len(),
    ensures
        match r {
            Some(p) => p.1 <= chars.len() && parse_pair(suffix(chars@, pos as int)) == Some(
                ((p.0.0@, p.0.1@), suffix(chars@, p.1 as int)),
            ),
            None => parse_pair(suffix(chars@, pos as int)) is None,
        },
{
    let ghost s = suffix(chars@, pos as int);
    if pos == chars.len() || chars[pos] != '"' {
        return None;
    }
    proof {
        assert(s[0] == chars@[pos as int]);
        assert(s.drop_first() =~= suffix(chars@, pos as int + 1));
    }
    match parse_str_exec(chars, pos + 1) {
        None => None,
        Some((k, p1)) => {
            let ghost r1 = suffix(chars@, p1 as int);
            if chars.len() - p1 < 2 {
                return None;
            }
            let d1 = chars[p1];
            let d2 = chars[p1 + 1];
            proof {
                assert(r1[0] == chars@[p1 as int]);
                assert(r1[1] == chars@[p1 as int + 1]);
            }
            if d1 != ':' || d2 != '"' {
                return None;
            }
            proof {
                assert(r1.subrange(2, r1.len() as int) =~= suffix(chars@, p1 as int + 2));
            }
            match parse_str_exec(chars, p1 + 2) {
                None => None,
                Some((v, p2)) => Some(((k, v), p2)),
            }
        },
    }
}

/// Executable form of [`parse_tail`], reading from `chars` at `pos` with
/// fuel equal to the number of characters left.
fn parse_tail_exec(chars: &Vec<char>, pos: usize) -> (r: Option<(Vec<(String, String)>, usize)>)
    requires
        pos <= chars.len(),
    ensures
        match r {
            Some(p) => p.1 <= chars.len() && parse_tail(
                suffix(chars@, pos as int),
                (chars.len() - pos) as nat,
            ) == Some((entries_view(p.0@), suffix(chars@, p.1 as int))),
            None => parse_tail(suffix(chars@, pos as int), (chars.len() - pos) as nat) is None,
        },
    decreases chars.len() - pos,
{
    let ghost s = suffix(chars@, pos as int);
    let ghost fuel = (chars.len() - pos) as nat;
    if pos == chars.len() {
        return None;
    }
    let c = chars[pos];
    proof {
        assert(s[0] == chars@[pos as int]);
    }
    if c == '}' {
        proof {
            assert(s.drop_first() =~= suffix(chars@, pos as int + 1));
            assert(entries_view(Seq::<(String, String)>::empty()) =~= Seq::<(Seq<char>, Seq<char>)>::empty());
        }
        let empty: Vec<(String, String)> = Vec::new();
        return Some((empty, pos + 1));
    }
    if c != ',' {
        return None;
    }
    proof {
        assert(s.drop_first() =~= suffix(chars@, pos as int + 1));
    }
    match parse_pair_exec(chars, pos + 1) {
        None => None,
        Some(((k, v), p1)) => {
            proof {
                lemma_parse_pair_shrinks(s.drop_first());
                assert(suffix(chars@, p1 as int).len() < s.drop_first().len());
            }
            match parse_tail_exec(chars, p1) {
                None => {
                    proof {
                        lemma_parse_tail_fuel(
                            suffix(chars@, p1 as int),
                            (chars.len() - p1) as nat,
                            (fuel - 1) as nat,
                        );
                    }
                    None
                },
                Some((mut es, p2)) => {
                    proof {
                        lemma_parse_tail_fuel(
                            suffix(chars@, p1 as int),
                            (chars.len() - p1) as nat,
                            (fuel - 1) as nat,
                        );
                    }
                    let ghost inner_view = entries_view(es@);
                    es.insert(0, (k, v));
                    proof {
                        assert(entries_view(es@) =~= seq![(k@, v@)] + inner_view);
                    }
                    Some((es, p2))
                },
            }
        },
    }
}

/// Decodes a snapshot string.  Returns the entries exactly when the text
/// is a well-formed snapshot; malformed text yields `None`.
pub fn parse_entries(text: &str) -> (r: Option<Vec<(String, String)>>)
    ensures
        match r {
            Some(es) => parse_map(text@) == Some(entries_view(es@)),
            None => parse_map(text@) is None,
        },
{
    let chars = str_chars(text);
    let ghost s = text@;
    if chars.len() == 0 {
        return None;
    }
    let c0 = chars[0];
    if c0 != '{' {
        return None;
    }
    proof {
        assert(s.drop_first() =~= suffix(chars@, 1));
    }
    if chars.len() >= 2 && chars[1] == '}' {
        proof {
            assert(s.drop_first()[0] == chars@[1]);
        }
        if chars.len() == 2 {
            proof {
                assert(entries_view(Seq::<(String, String)>::empty()) =~= Seq::<(Seq<char>, Seq<char>)>::empty());
            }
            let empty: Vec<(String, String)> = Vec::new();
            return Some(empty);
        } else {
            return None;
        }
    }
    proof {
        if s.drop_first().len() > 0 {
            assert(s.drop_first()[0] == chars@[1]);
        }
    }
    match parse_pair_exec(&chars, 1) {
        None => None,
        Some(((k, v), p1)) => {
            proof {
                assert((chars.len() - p1) as nat == suffix(chars@, p1 as int).len());
            }
            match parse_tail_exec(&chars, p1) {
                None => None,
                Some((mut es, p2)) => {
                    if p2 == chars.len() {
                        proof {
                            assert(suffix(chars@, p2 as int).len() == 0);
                        }
                        let ghost inner_view = entries_view(es@);
                        es.insert(0, (k, v));
                        proof {
                            assert(entries_view(es@) =~= seq![(k@, v@)] + inner_view);
                        }
                        Some(es)
                    } else {
                        proof {
                            assert(suffix(chars@, p2 as int).len() != 0);
                        }
                        None
                    }
                },
            }
        },
    }
}

/// Round trip: decoding an encoded entry sequence yields it back exactly.
pub proof fn lemma_parse_ser_map(es: Seq<(Seq<char>, Seq<char>)>)
    ensures
        parse_map(ser_map(es)) == Some(es),
{
    let total = ser_map(es);
    if es.len() == 0 {
        assert(total =~= seq!['{', '}']);
        assert(total[0] == '{');
        assert(total.drop_first() =~= seq!['}']);
        assert(es =~= Seq::<(Seq<char>, Seq<char>)>::empty());
    } else {
        let e = es[0];
        let t = es.drop_first();
        let r = ser_tail(t) + seq!['}'];
        assert(total =~= seq!['{'] + (ser_pair(e.0, e.1) + r));
        assert(total[0] == '{');
        let body = total.drop_first();
        assert(body =~= ser_pair(e.0, e.1) + r);
        assert(body[0] == '"');
        assert(body[0] != '}');
        lemma_parse_pair_ser(e.0, e.1, r);
        lemma_ser_tail_len(t);
        assert(r.len() >= t.len());
        lemma_parse_tail_ser(t, r.len());
        assert(seq![e] + t =~= es);
    }
}

} // verus!
