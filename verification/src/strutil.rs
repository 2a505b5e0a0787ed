//! Character-level string helpers: equality, prefix and suffix tests, and
//! an exact decimal codec for the 64-bit counters the store keeps.

use vstd::prelude::*;

verus! {

/// Relies on `String::push`: appends one character to the string.
#[verifier::external_body]
pub(crate) fn push_char(out: &mut String, c: char)
    ensures
        final(out)@ == old(out)@.push(c),
{
    out.push(c)
}

/// Collects the characters of a string slice into a vector.
pub fn str_chars(s: &str) -> (r: Vec<char>)
    ensures
        r@ == s@,
{
    let n = s.unicode_len();
    let mut out: Vec<char> = Vec::new();
    let mut i: usize = 0;
    while i < n
        invariant
            n == s@.len(),
            i <= n,
            out@ == s@.take(i as int),
        decreases n - i,
    {
        out.push(s.get_char(i));
        proof {
            assert(s@.take(i as int + 1) =~= s@.take(i as int).push(s@[i as int]));
        }
        i = i + 1;
    }
    proof {
        assert(s@.take(n as int) =~= s@);
    }
    out
}

/// Character-for-character string equality.
pub fn str_eq(a: &str, b: &str) -> (r: bool)
    ensures
        r == (a@ == b@),
{
    let n = a.unicode_len();
    if n != b.unicode_len() {
        return false;
    }
    let mut i: usize = 0;
    while i < n
        invariant
            n == a@.len(),
            n == b@.len(),
            i <= n,
            forall|j: int| 0 <= j < i ==> a@[j] == b@[j],
        decreases n - i,
    {
        if a.get_char(i) != b.get_char(i) {
            return false;
        }
        i = i + 1;
    }
    proof {
        assert(a@ =~= b@);
    }
    true
}

/// `p` is an initial segment of `s`.
pub open spec fn is_prefix(p: Seq<char>, s: Seq<char>) -> bool {
    p.len() <= s.len() && s.take(p.len() as int) == p
}

/// `p` is a final segment of `s`.
pub open spec fn is_suffix(p: Seq<char>, s: Seq<char>) -> bool {
    p.len() <= s.len() && s.skip(s.len() - p.len()) == p
}

/// Tests whether `s` starts with `p`.
pub fn has_prefix(s: &str, p: &str) -> (r: bool)
    ensures
        r == is_prefix(p@, s@),
{
    let np = p.unicode_len();
    let ns = s.unicode_len();
    if np > ns {
        return false;
    }
    let mut i: usize = 0;
    while i < np
        invariant
            np == p@.len(),
            ns == s@.len(),
            np <= ns,
            i <= np,
            forall|j: int| 0 <= j < i ==> s@[j] == p@[j],
        decreases np - i,
    {
        if s.get_char(i) != p.get_char(i) {
            proof {
                assert(s@.take(np as int)[i as int] != p@[i as int]);
            }
            return false;
        }
        i = i + 1;
    }
    proof {
        assert(s@.take(np as int) =~= p@);
    }
    true
}

/// Tests whether `s` ends with `p`.
pub fn has_suffix(s: &str, p: &str) -> (r: bool)
    ensures
        r == is_suffix(p@, s@),
{
    let np = p.unicode_len();
    let ns = s.unicode_len();
    if np > ns {
        return false;
    }
    let off = ns - np;
    let mut i: usize = 0;
    while i < np
        invariant
            np == p@.len(),
            ns == s@.len(),
            off == ns - np,
            i <= np,
            forall|j: int| 0 <= j < i ==> s@[off + j] == p@[j],
        decreases np - i,
    {
        if s.get_char(off + i) != p.get_char(i) {
            proof {
                assert(s@.skip(off as int)[i as int] != p@[i as int]);
            }
            return false;
        }
        i = i + 1;
    }
    proof {
        assert(s@.skip(off as int) =~= p@);
    }
    true
}

/// The position of the first occurrence of `c` in `s`, or the length of
/// `s` when `c` does not occur.
pub open spec fn first_pos(s: Seq<char>, c: char) -> nat
    decreases s.len(),
{
    if s.len() == 0 {
        0
    } else if s[0] == c {
        0
    } else {
        1 + first_pos(s.drop_first(), c)
    }
}

/// `first_pos` from its characterization: everything before `i` differs
/// from `c`, and either `i` carries `c` or `i` is the whole length.
pub proof fn lemma_first_pos_at(s: Seq<char>, c: char, i: int)
    requires
        0 <= i <= s.len(),
        forall|j: int| 0 <= j < i ==> s[j] != c,
        i < s.len() ==> s[i] == c,
    ensures
        first_pos(s, c) == i,
    decreases i,
{
    if s.len() == 0 {
    } else if i == 0 {
    } else {
        assert forall|j: int| 0 <= j < i - 1 implies s.drop_first()[j] != c by {
            assert(s.drop_first()[j] == s[j + 1]);
        }
        assert(i - 1 < s.drop_first().len() ==> s.drop_first()[i - 1] == c);
        lemma_first_pos_at(s.drop_first(), c, i - 1);
    }
}

/// The first position of `c` in `s`, if any.
pub fn find_char(s: &str, c: char) -> (r: Option<usize>)
    ensures
        match r {
            Some(i) => i < s@.len() && s@[i as int] == c && forall|j: int| 0 <= j < i ==> s@[j] != c,
            None => forall|j: int| 0 <= j < s@.len() ==> s@[j] != c,
        },
{
    let n = s.unicode_len();
    let mut i: usize = 0;
    while i < n
        invariant
            n == s@.len(),
            i <= n,
            forall|j: int| 0 <= j < i ==> s@[j] != c,
        decreases n - i,
    {
        if s.get_char(i) == c {
            return Some(i);
        }
        i = i + 1;
    }
    None
}

// ---------------------------------------------------------------------------
// Decimal representation of 64-bit integers.
// ---------------------------------------------------------------------------

/// `c` is an ASCII digit.
pub open spec fn is_digit(c: char) -> bool {
    48 <= c as u32 && c as u32 <= 57
}

/// The numeric value of a digit character.
pub open spec fn digit_val(c: char) -> int {
    (c as u32) as int - 48
}

/// Every character of `s` is a digit.
pub open spec fn all_digits(s: Seq<char>) -> bool {
    forall|i: int| 0 <= i < s.len() ==> is_digit(s[i])
}

/// The value of a digit string, most significant digit first.
pub open spec fn digits_val(s: Seq<char>) -> int
    decreases s.len(),
{
    if s.len() == 0 {
        0
    } else {
        digits_val(s.drop_last()) * 10 + digit_val(s.last())
    }
}

/// A digit string never has a negative value.
pub proof fn lemma_digits_val_nonneg(s: Seq<char>)
    requires
        all_digits(s),
    ensures
        digits_val(s) >= 0,
    decreases s.len(),
{
    if s.len() > 0 {
        let t = s.drop_last();
        assert forall|i: int| 0 <= i < t.len() implies is_digit(t[i]) by {
            assert(t[i] == s[i]);
        }
        lemma_digits_val_nonneg(t);
        assert(is_digit(s.last()));
    }
}

/// The integer a decimal string denotes: an optional sign, then at least
/// one digit, exactly as the standard library's integer parser reads it.
pub open spec fn int_of_decimal(s: Seq<char>) -> Option<int> {
    if s.len() > 0 && (s[0] == '+' || s[0] == '-') {
        let d = s.drop_first();
        if d.len() > 0 && all_digits(d) {
            Some(if s[0] == '-' { -digits_val(d) } else { digits_val(d) })
        } else {
            None
        }
    } else if s.len() > 0 && all_digits(s) {
        Some(digits_val(s))
    } else {
        None
    }
}

/// What parsing `s` as a signed 64-bit integer yields: the denoted value
/// when there is one and it fits, nothing otherwise.
pub open spec fn parse_i64_spec(s: Seq<char>) -> Option<i64> {
    match int_of_decimal(s) {
        Some(n) => if i64::MIN <= n <= i64::MAX {
            Some(n as i64)
        } else {
            None
        },
        None => None,
    }
}

/// One more than the largest magnitude a 64-bit integer can carry; the
/// accumulator saturates here, which is enough to detect overflow.
pub open spec fn sat_cap(x: int) -> int {
    if x <= 9223372036854775809 {
        x
    } else {
        9223372036854775809
    }
}

/// The digit character denoting `d`.
pub open spec fn digit_char_spec(d: nat) -> char {
    if d == 0 {
        '0'
    } else if d == 1 {
        '1'
    } else if d == 2 {
        '2'
    } else if d == 3 {
        '3'
    } else if d == 4 {
        '4'
    } else if d == 5 {
        '5'
    } else if d == 6 {
        '6'
    } else if d == 7 {
        '7'
    } else if d == 8 {
        '8'
    } else {
        '9'
    }
}

/// The decimal digits of a nonnegative value, most significant first.
pub open spec fn u_digits(m: nat) -> Seq<char>
    decreases m,
{
    if m < 10 {
        seq![digit_char_spec(m)]
    } else {
        u_digits(m / 10) + seq![digit_char_spec(m % 10)]
    }
}

/// The canonical decimal form of an integer: a minus sign for negative
/// values, then the digits without leading zeros.
pub open spec fn dec_repr(n: int) -> Seq<char> {
    if n < 0 {
        seq!['-'] + u_digits((-n) as nat)
    } else {
        u_digits(n as nat)
    }
}

/// The digit character for a value below ten.
fn digit_char(d: u64) -> (c: char)
    requires
        d < 10,
    ensures
        is_digit(c),
        digit_val(c) == d,
        c == digit_char_spec(d as nat),
{
    match d {
        0 => '0',
        1 => '1',
        2 => '2',
        3 => '3',
        4 => '4',
        5 => '5',
        6 => '6',
        7 => '7',
        8 => '8',
        _ => '9',
    }
}

/// The decimal digits of an unsigned value, most significant first.
fn format_u64(m: u64) -> (r: String)
    ensures
        r@.len() >= 1,
        all_digits(r@),
        digits_val(r@) == m as int,
        r@ == u_digits(m as nat),
    decreases m,
{
    let d = m % 10;
    let c = digit_char(d);
    if m < 10 {
        let mut s = String::new();
        push_char(&mut s, c);
        proof {
            assert(s@.drop_last() =~= Seq::<char>::empty());
            assert(digits_val(Seq::<char>::empty()) == 0);
        }
        s
    } else {
        let mut s = format_u64(m / 10);
        let ghost prefix = s@;
        push_char(&mut s, c);
        proof {
            assert(s@.drop_last() =~= prefix);
            assert(s@.last() == c);
        }
        s
    }
}

/// The decimal form of `n`, exactly as the store records counters.
pub fn format_i64(n: i64) -> (r: String)
    ensures
        parse_i64_spec(r@) == Some(n),
        r@ == dec_repr(n as int),
        r@.len() >= 1,
{
    if n >= 0 {
        let r = format_u64(n as u64);
        proof {
            assert(!(r@[0] == '+' || r@[0] == '-'));
            assert(int_of_decimal(r@) == Some(digits_val(r@)));
        }
        r
    } else {
        let mag: u64 = (-(n as i128)) as u64;
        let digits = format_u64(mag);
        let mut r = String::new();
        push_char(&mut r, '-');
        r.append(digits.as_str());
        proof {
            assert(r@ =~= seq!['-'] + digits@);
            assert(r@[0] == '-');
            assert(r@.drop_first() =~= digits@);
            assert(int_of_decimal(r@) == Some(-digits_val(digits@)));
            assert(mag as int == -(n as int));
        }
        r
    }
}

/// Parses `s` as a signed 64-bit integer, exactly as
/// [`parse_i64_spec`] describes.
pub fn parse_i64(s: &str) -> (r: Option<i64>)
    ensures
        r == parse_i64_spec(s@),
{
    let chars = str_chars(s);
    let n = chars.len();
    if n == 0 {
        return None;
    }
    let c0 = chars[0];
    let signed = c0 == '-' || c0 == '+';
    let neg = c0 == '-';
    let start: usize = if signed {
        1
    } else {
        0
    };
    if start == n {
        return None;
    }
    let ghost d = s@.skip(start as int);
    proof {
        if signed {
            assert(d =~= s@.drop_first());
        } else {
            assert(d =~= s@);
        }
    }
    let mut acc: u64 = 0;
    let mut i: usize = start;
    while i < n
        invariant
            n == s@.len(),
            n == chars@.len(),
            chars@ == s@,
            start <= i <= n,
            start < n,
            signed == (s@[0] == '+' || s@[0] == '-'),
            neg == (s@[0] == '-'),
            start == (if signed { 1usize } else { 0usize }),
            d == s@.skip(start as int),
            signed ==> d == s@.drop_first(),
            !signed ==> d == s@,
            all_digits(s@.subrange(start as int, i as int)),
            acc as int == sat_cap(digits_val(s@.subrange(start as int, i as int))),
        decreases n - i,
    {
        let c = chars[i];
        let u = c as u32;
        if u < 48 || u > 57 {
            proof {
                assert(d[i - start] == s@[i as int]);
                assert(!is_digit(d[i - start]));
                assert(!all_digits(d));
            }
            return None;
        }
        let dg = (u - 48) as u64;
        let wide: u128 = acc as u128 * 10 + dg as u128;
        let ghost pre = s@.subrange(start as int, i as int);
        let ghost post = s@.subrange(start as int, i as int + 1);
        let ghost dv_pre = digits_val(pre);
        let ghost dv_post = digits_val(post);
        proof {
            assert(post.drop_last() =~= pre);
            assert(post.last() == s@[i as int]);
            assert(is_digit(s@[i as int]));
            assert(dv_post == dv_pre * 10 + digit_val(s@[i as int]));
            assert(digit_val(s@[i as int]) == dg as int);
            lemma_digits_val_nonneg(pre);
            assert forall|j: int| 0 <= j < post.len() implies is_digit(post[j]) by {
                if j < pre.len() {
                    assert(post[j] == pre[j]);
                } else {
                    assert(post[j] == s@[i as int]);
                }
            }
        }
        acc = if wide > 9223372036854775809u128 {
            9223372036854775809u64
        } else {
            wide as u64
        };
        proof {
            if dv_pre <= 9223372036854775809 {
                assert(acc as int == sat_cap(dv_post));
            } else {
                assert(wide == 9223372036854775809u128 * 10 + dg as u128);
                assert(dv_post >= dv_pre);
                assert(acc as int == sat_cap(dv_post));
            }
        }
        i = i + 1;
    }
    proof {
        assert(s@.subrange(start as int, n as int) =~= d);
        lemma_digits_val_nonneg(d);
        assert(d.len() > 0);
        if signed {
            assert(int_of_decimal(s@) == Some(if neg { -digits_val(d) } else { digits_val(d) }));
        } else {
            assert(int_of_decimal(s@) == Some(digits_val(d)));
        }
    }
    let ghost mag = digits_val(d);
    if neg {
        if acc > 9223372036854775808u64 {
            proof {
                assert(mag > 9223372036854775808);
            }
            None
        } else if acc == 9223372036854775808u64 {
            proof {
                assert(mag == 9223372036854775808);
            }
            Some(i64::MIN)
        } else {
            proof {
                assert(mag == acc as int);
            }
            Some(-(acc as i64))
        }
    } else {
        if acc > 9223372036854775807u64 {
            proof {
                assert(mag > 9223372036854775807);
            }
            None
        } else {
            proof {
                assert(mag == acc as int);
            }
            Some(acc as i64)
        }
    }
}

} // verus!
