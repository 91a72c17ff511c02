//! The JSON that ush reads and writes: string escaping and unescaping, and a small
//! parser of JSON values.
use vstd::prelude::*;
use crate::text::{self, chars_of, push_char, push_hex_padded, skip_whitespace, str_eq};

verus! {

// ---------------------------------------------------------------------------
// Escaping.

/// The JSON escape of one character, as Go's `encoding/json` writes it:
/// `"`, `\`, newline, carriage return and tab as two-character escapes,
/// other control characters as `\u00xx`, everything else as itself.
pub open spec fn escape_char(c: char) -> Seq<char> {
    if c == '"' {
        seq!['\\', '"']
    } else if c == '\\' {
        seq!['\\', '\\']
    } else if c == '\n' {
        seq!['\\', 'n']
    } else if c == '\r' {
        seq!['\\', 'r']
    } else if c == '\t' {
        seq!['\\', 't']
    } else if (c as u32) < 0x20 {
        seq!['\\', 'u'] + text::hex_padded(c as nat, 4)
    } else {
        seq![c]
    }
}

/// The escapes of every character of `s`, in order.
pub open spec fn escape_body(s: Seq<char>) -> Seq<char>
    decreases s.len(),
{
    if s.len() == 0 {
        seq![]
    } else {
        escape_char(s[0]) + escape_body(s.drop_first())
    }
}

/// `s` as a JSON string literal: quoted and escaped.
pub open spec fn json_quoted(s: Seq<char>) -> Seq<char> {
    seq!['"'] + escape_body(s) + seq!['"']
}

proof fn lemma_escape_body_push(s: Seq<char>, c: char)
    ensures
        escape_body(s.push(c)) == escape_body(s) + escape_char(c),
    decreases s.len(),
{
    if s.len() == 0 {
        assert(s.push(c).drop_first() =~= Seq::<char>::empty());
        assert(escape_body(s.push(c).drop_first()) == Seq::<char>::empty());
        assert(escape_body(s) == Seq::<char>::empty());
        assert(escape_body(s.push(c)) =~= escape_char(c));
    } else {
        lemma_escape_body_push(s.drop_first(), c);
        assert(s.push(c).drop_first() =~= s.drop_first().push(c));
        assert(escape_body(s.push(c)) =~= escape_body(s) + escape_char(c));
    }
}

fn push_escaped(out: &mut String, c: char)
    ensures
        final(out)@ == old(out)@ + escape_char(c),
{
    if c == '"' {
        push_char(out, '\\');
        push_char(out, '"');
    } else if c == '\\' {
        push_char(out, '\\');
        push_char(out, '\\');
    } else if c == '\n' {
        push_char(out, '\\');
        push_char(out, 'n');
    } else if c == '\r' {
        push_char(out, '\\');
        push_char(out, 'r');
    } else if c == '\t' {
        push_char(out, '\\');
        push_char(out, 't');
    } else if (c as u32) < 0x20 {
        push_char(out, '\\');
        push_char(out, 'u');
        push_hex_padded(out, c as u32, 4);
    } else {
        push_char(out, c);
    }
    assert(out@ =~= old(out)@ + escape_char(c));
}

/// Escapes a string as a JSON string literal, the way Go's `encoding/json` does.
pub fn escape_json_string(s: &str) -> (r: String)
    ensures
        r@ == json_quoted(s@),
{
    let cs = chars_of(s);
    let mut result = String::new();
    push_char(&mut result, '"');
    let mut i: usize = 0;
    while i < cs.len()
        invariant
            i <= cs.len(),
            result@ == seq!['"'] + escape_body(cs@.take(i as int)),
        decreases cs.len() - i,
    {
        push_escaped(&mut result, cs[i]);
        proof {
            lemma_escape_body_push(cs@.take(i as int), cs@[i as int]);
            assert(cs@.take(i + 1) == cs@.take(i as int).push(cs@[i as int]));
        }
        i = i + 1;
    }
    push_char(&mut result, '"');
    assert(cs@.take(cs.len() as int) == cs@);
    assert(result@ =~= json_quoted(s@));
    result
}

// ---------------------------------------------------------------------------
// Unescaping.

/// The value of a hexadecimal digit of either case.
pub open spec fn hex_digit_value(c: char) -> Option<nat> {
    if '0' <= c <= '9' {
        Some((c as nat - 48) as nat)
    } else if 'a' <= c <= 'f' {
        Some((c as nat - 87) as nat)
    } else if 'A' <= c <= 'F' {
        Some((c as nat - 55) as nat)
    } else {
        None
    }
}

/// The value of a run of hexadecimal digits, if every character is one.
pub open spec fn hex_digits_value(ds: Seq<char>) -> Option<nat>
    decreases ds.len(),
{
    if ds.len() == 0 {
        Some(0)
    } else {
        match (hex_digits_value(ds.drop_last()), hex_digit_value(ds.last())) {
            (Some(hi), Some(lo)) => Some(hi * 16 + lo),
            _ => None,
        }
    }
}

/// The value of the four characters after `\u`, read as std's
/// `u32::from_str_radix(_, 16)` reads them: an optional `+`, then hex digits.
pub open spec fn hex4_value(h: Seq<char>) -> Option<nat> {
    if h.len() > 0 && h[0] == '+' {
        hex_digits_value(h.drop_first())
    } else {
        hex_digits_value(h)
    }
}

/// The low surrogate of a `\uXXXX` escape at the front of `rest`, if there is one.
pub open spec fn low_surrogate_at(rest: Seq<char>) -> Option<nat> {
    if rest.len() >= 6 && rest[0] == '\\' && rest[1] == 'u' {
        match hex4_value(rest.subrange(2, 6)) {
            Some(v) => if 0xDC00 <= v <= 0xDFFF {
                Some(v)
            } else {
                None
            },
            None => None,
        }
    } else {
        None
    }
}

/// The character that a high and a low surrogate combine into.
pub open spec fn combine_surrogates(high: nat, low: nat) -> char {
    (0x10000 + (high - 0xD800) * 1024 + (low - 0xDC00)) as char
}

/// Prefixes the decoded text `t` and the consumed count `n` onto a decoding result.
pub open spec fn prepend(t: Seq<char>, n: nat, r: Option<(Seq<char>, nat)>) -> Option<(Seq<char>, nat)> {
    match r {
        None => None,
        Some((rt, rn)) => Some((t + rt, n + rn)),
    }
}

/// Decodes the body of a JSON string literal (the characters after the opening
/// quote): the decoded text, and how many characters were consumed up to and
/// including the closing quote. `None` when the literal never closes or holds an
/// unknown escape. A `\u` escape whose digits do not parse is dropped, as is a
/// lone surrogate; a high surrogate followed by a `\u` low surrogate becomes
/// the character they encode together.
pub open spec fn string_body(cs: Seq<char>) -> Option<(Seq<char>, nat)>
    decreases cs.len(),
{
    if cs.len() == 0 {
        None
    } else if cs[0] == '"' {
        Some((seq![], 1))
    } else if cs[0] == '\\' {
        if cs.len() < 2 {
            None
        } else {
            let e = cs[1];
            let rest = cs.skip(2);
            if e == '"' || e == '\\' || e == '/' {
                prepend(seq![e], 2, string_body(rest))
            } else if e == 'n' {
                prepend(seq!['\n'], 2, string_body(rest))
            } else if e == 'r' {
                prepend(seq!['\r'], 2, string_body(rest))
            } else if e == 't' {
                prepend(seq!['\t'], 2, string_body(rest))
            } else if e == 'b' {
                prepend(seq!['\u{8}'], 2, string_body(rest))
            } else if e == 'f' {
                prepend(seq!['\u{c}'], 2, string_body(rest))
            } else if e == 'u' {
                if cs.len() < 6 {
                    None
                } else {
                    let after = cs.skip(6);
                    match hex4_value(cs.subrange(2, 6)) {
                        None => prepend(seq![], 6, string_body(after)),
                        Some(cp) => {
                            if 0xD800 <= cp <= 0xDBFF {
                                match low_surrogate_at(after) {
                                    Some(low) => prepend(
                                        seq![combine_surrogates(cp, low)],
                                        12,
                                        string_body(after.skip(6)),
                                    ),
                                    None => prepend(seq![], 6, string_body(after)),
                                }
                            } else if vstd::utf8::is_scalar(cp as u32) {
                                prepend(seq![cp as char], 6, string_body(after))
                            } else {
                                prepend(seq![], 6, string_body(after))
                            }
                        },
                    }
                }
            } else {
                None
            }
        }
    } else {
        prepend(seq![cs[0]], 1, string_body(cs.skip(1)))
    }
}

/// Parses a JSON string literal at the front of `s`, after any leading
/// whitespace: the decoded text and the number of characters of `s` consumed.
pub open spec fn json_string(s: Seq<char>) -> Option<(Seq<char>, nat)> {
    let lead = text::leading_whitespace(s);
    let t = s.skip(lead as int);
    if t.len() > 0 && t[0] == '"' {
        prepend(seq![], lead + 1, string_body(t.drop_first()))
    } else {
        None
    }
}

/// std's `char::from_u32`: the character with this scalar value, if it is one.
#[verifier::external_body]
fn char_from_u32(v: u32) -> (r: Option<char>)
    ensures
        vstd::utf8::is_scalar(v) ==> r == Some(v as char),
        !vstd::utf8::is_scalar(v) ==> r is None,
{
    char::from_u32(v)
}

fn hex_digit(c: char) -> (r: Option<u32>)
    ensures
        match hex_digit_value(c) {
            None => r is None,
            Some(v) => r == Some(v as u32),
        },
{
    if c >= '0' && c <= '9' {
        Some((c as u32) - 48)
    } else if c >= 'a' && c <= 'f' {
        Some((c as u32) - 87)
    } else if c >= 'A' && c <= 'F' {
        Some((c as u32) - 55)
    } else {
        None
    }
}

/// The value of the hex digits `cs[from..to]`, at most four of them.
fn hex_run(cs: &[char], from: usize, to: usize) -> (r: Option<u32>)
    requires
        from <= to <= cs.len(),
        to - from <= 4,
    ensures
        match hex_digits_value(cs@.subrange(from as int, to as int)) {
            None => r is None,
            Some(v) => r == Some(v as u32) && v < 0x10000,
        },
{
    let mut v: u32 = 0;
    let mut i = from;
    while i < to
        invariant
            from <= i <= to <= cs.len(),
            to - from <= 4,
            hex_digits_value(cs@.subrange(from as int, i as int)) == Some(v as nat),
            (v as nat) < pow16((i - from) as nat),
        decreases to - i,
    {
        assert(cs@.subrange(from as int, i + 1).drop_last() == cs@.subrange(from as int, i as int));
        assert(cs@.subrange(from as int, i + 1).last() == cs@[i as int]);
        match hex_digit(cs[i]) {
            None => {
                proof {
                    lemma_hex_prefix_none(cs@.subrange(from as int, to as int), (i + 1 - from) as nat);
                    assert(cs@.subrange(from as int, to as int).take((i + 1 - from) as int)
                        == cs@.subrange(from as int, i + 1));
                }
                return None;
            },
            Some(d) => {
                assert((v as nat) * 16 + d < pow16((i + 1 - from) as nat)) by {
                    assert(pow16((i + 1 - from) as nat) == 16 * pow16((i - from) as nat));
                    assert((v as nat) * 16 + d < 16 * pow16((i - from) as nat)) by (nonlinear_arith)
                        requires (v as nat) < pow16((i - from) as nat), d < 16;
                }
                proof {
                    lemma_pow16_bound((i + 1 - from) as nat);
                }
                v = v * 16 + d;
                i = i + 1;
            },
        }
    }
    proof {
        lemma_pow16_bound((to - from) as nat);
    }
    Some(v)
}

spec fn pow16(n: nat) -> nat
    decreases n,
{
    if n == 0 {
        1
    } else {
        16 * pow16((n - 1) as nat)
    }
}

proof fn lemma_pow16_bound(n: nat)
    requires
        n <= 4,
    ensures
        pow16(n) <= 0x10000,
{
    assert(pow16(0) == 1);
    assert(pow16(1) == 16);
    assert(pow16(2) == 256);
    assert(pow16(3) == 4096);
    assert(pow16(4) == 65536);
}

/// A run of hex digits whose prefix fails to parse fails to parse too.
proof fn lemma_hex_prefix_none(ds: Seq<char>, k: nat)
    requires
        k <= ds.len(),
        hex_digits_value(ds.take(k as int)) is None,
    ensures
        hex_digits_value(ds) is None,
    decreases ds.len(),
{
    if k < ds.len() {
        assert(ds.drop_last().take(k as int) == ds.take(k as int));
        lemma_hex_prefix_none(ds.drop_last(), k);
    } else {
        assert(ds.take(k as int) == ds);
    }
}

/// The value of the four characters `cs[from..from + 4]` after a `\u`.
fn hex4(cs: &[char], from: usize) -> (r: Option<u32>)
    requires
        from + 4 <= cs.len(),
    ensures
        match hex4_value(cs@.subrange(from as int, from + 4)) {
            None => r is None,
            Some(v) => r == Some(v as u32) && v < 0x10000,
        },
{
    let ghost h = cs@.subrange(from as int, from + 4);
    if cs[from] == '+' {
        assert(h.drop_first() == cs@.subrange(from + 1, from + 4));
        hex_run(cs, from + 1, from + 4)
    } else {
        hex_run(cs, from, from + 4)
    }
}

/// The low surrogate of a `\uXXXX` escape at `cs[at..]`, if there is one.
fn low_surrogate(cs: &[char], at: usize) -> (r: Option<u32>)
    requires
        at <= cs.len(),
    ensures
        match low_surrogate_at(cs@.skip(at as int)) {
            None => r is None,
            Some(v) => r == Some(v as u32),
        },
{
    let ghost rest = cs@.skip(at as int);
    if cs.len() - at >= 6 && cs[at] == '\\' && cs[at + 1] == 'u' {
        assert(rest.subrange(2, 6) == cs@.subrange(at + 2, at + 6));
        match hex4(cs, at + 2) {
            Some(v) => {
                if 0xDC00 <= v && v <= 0xDFFF {
                    Some(v)
                } else {
                    None
                }
            },
            None => None,
        }
    } else {
        None
    }
}

/// Decodes the body of a JSON string literal starting at `cs[start]`.
/// Returns the text and the index just past the closing quote.
pub fn parse_string_body(cs: &[char], start: usize) -> (r: Option<(String, usize)>)
    requires
        start <= cs.len(),
    ensures
        match string_body(cs@.skip(start as int)) {
            None => r is None,
            Some((t, n)) => r matches Some((v, end)) && v@ == t && end == start + n,
        },
        r matches Some((_, end)) ==> end <= cs.len(),
{
    let mut out = String::new();
    let mut i = start;
    assert(prepend(seq![], 0, string_body(cs@.skip(start as int))) =~= string_body(
        cs@.skip(start as int),
    ));
    loop
        invariant
            start <= i <= cs.len(),
            string_body(cs@.skip(start as int)) == prepend(
                out@,
                (i - start) as nat,
                string_body(cs@.skip(i as int)),
            ),
        decreases cs.len() - i,
    {
        let ghost here = cs@.skip(i as int);
        let ghost acc = out@;
        if i >= cs.len() {
            return None;
        }
        let c = cs[i];
        assert(here[0] == c);
        if c == '"' {
            assert(out@ + seq![] =~= out@);
            return Some((out, i + 1));
        }
        if c != '\\' {
            push_char(&mut out, c);
            assert(here.skip(1) == cs@.skip(i + 1));
            assert(acc + seq![c] == out@);
            assert(forall|t: Seq<char>| (acc + (seq![c] + t)) == out@ + t);
            i = i + 1;
            continue;
        }
        if cs.len() - i < 2 {
            return None;
        }
        let e = cs[i + 1];
        assert(here[1] == e);
        assert(here.skip(2) == cs@.skip(i + 2));
        let simple: Option<char> = if e == '"' || e == '\\' || e == '/' {
            Some(e)
        } else if e == 'n' {
            Some('\n')
        } else if e == 'r' {
            Some('\r')
        } else if e == 't' {
            Some('\t')
        } else if e == 'b' {
            Some('\u{8}')
        } else if e == 'f' {
            Some('\u{c}')
        } else {
            None
        };
        if let Some(x) = simple {
            push_char(&mut out, x);
            assert(forall|t: Seq<char>| (acc + (seq![x] + t)) == out@ + t);
            i = i + 2;
            continue;
        }
        if e != 'u' {
            return None;
        }
        if cs.len() - i < 6 {
            return None;
        }
        let (decoded, next) = unicode_escape(cs, i);
        if let Some(ch) = decoded {
            push_char(&mut out, ch);
            assert(forall|t: Seq<char>| (acc + (seq![ch] + t)) == out@ + t);
        } else {
            assert(forall|t: Seq<char>| (acc + (seq![] + t)) == acc + t);
        }
        i = next;
    }
}

/// The character, if any, that the `\u` escape at `cs[i..]` decodes to, and the
/// index just past the escape (past both halves of a surrogate pair).
fn unicode_escape(cs: &[char], i: usize) -> (r: (Option<char>, usize))
    requires
        i + 6 <= cs.len(),
        cs@[i as int] == '\\',
        cs@[i + 1] == 'u',
    ensures
        i + 6 <= r.1 <= cs.len(),
        string_body(cs@.skip(i as int)) == prepend(
            match r.0 {
                Some(ch) => seq![ch],
                None => seq![],
            },
            (r.1 - i) as nat,
            string_body(cs@.skip(r.1 as int)),
        ),
{
    let ghost here = cs@.skip(i as int);
    assert(here[0] == '\\' && here[1] == 'u');
    assert(here.subrange(2, 6) == cs@.subrange(i + 2, i + 6));
    assert(here.skip(6) == cs@.skip(i + 6));
    match hex4(cs, i + 2) {
        None => (None, i + 6),
        Some(cp) => {
            if 0xD800 <= cp && cp <= 0xDBFF {
                match low_surrogate(cs, i + 6) {
                    Some(low) => {
                        let combined = 0x10000 + (cp - 0xD800) * 1024 + (low - 0xDC00);
                        assert(vstd::utf8::is_scalar(combined));
                        let ch = char_from_u32(combined);
                        assert(ch == Some(combine_surrogates(cp as nat, low as nat)));
                        assert(cs@.skip(i + 6).skip(6) == cs@.skip(i + 12));
                        (ch, i + 12)
                    },
                    None => (None, i + 6),
                }
            } else {
                (char_from_u32(cp), i + 6)
            }
        },
    }
}

/// Parses a JSON string literal at the front of `s`, after any leading whitespace,
/// handling escape sequences and UTF-16 surrogate pairs. Returns the decoded text
/// and the rest of `s` after the closing quote.
pub fn parse_json_string(s: &str) -> (r: Option<(String, &str)>)
    ensures
        match json_string(s@) {
            None => r is None,
            Some((t, n)) => r matches Some((v, rest)) && v@ == t && rest@ == s@.skip(n as int),
        },
{
    let cs = chars_of(s);
    let lead = skip_whitespace(cs.as_slice(), 0);
    proof {
        text::lemma_trim_start_skip(cs@);
        assert(cs@.skip(0) == cs@);
    }
    if lead >= cs.len() || cs[lead] != '"' {
        return None;
    }
    assert(cs@.skip(lead as int).drop_first() == cs@.skip(lead + 1));
    match parse_string_body(cs.as_slice(), lead + 1) {
        None => None,
        Some((text, end)) => {
            let rest = s.substring_char(end, cs.len());
            assert(s@.subrange(end as int, s@.len() as int) == s@.skip(end as int));
            Some((text, rest))
        },
    }
}

// ---------------------------------------------------------------------------
// Escaping and unescaping are inverse.

proof fn lemma_hex_digit_roundtrip(d: nat)
    requires
        d < 16,
    ensures
        hex_digit_value(text::hex_digit_char(d)) == Some(d),
{
}

proof fn lemma_hex_padded_small(n: nat)
    requires
        n < 0x20,
    ensures
        text::hex_padded(n, 4).len() == 4,
        text::hex_padded(n, 4)[0] == '0',
        hex4_value(text::hex_padded(n, 4)) == Some(n),
{
    let h = text::hex_padded(n, 4);
    if n < 16 {
        assert(text::hex(n) == seq![text::hex_digit_char(n)]);
        assert(h =~= seq!['0', '0', '0', text::hex_digit_char(n)]);
        lemma_hex_digit_roundtrip(n);
        zeros_value();
        assert(h.drop_last() =~= seq!['0', '0', '0']);
        assert(hex_digits_value(h) == Some(n));
    } else {
        assert(text::hex(n / 16) == seq![text::hex_digit_char(n / 16)]);
        assert(text::hex(n) =~= seq![text::hex_digit_char(n / 16), text::hex_digit_char(n % 16)]);
        assert(h =~= seq!['0', '0', text::hex_digit_char(n / 16), text::hex_digit_char(n % 16)]);
        lemma_hex_digit_roundtrip(n / 16);
        lemma_hex_digit_roundtrip(n % 16);
        zeros_value();
        let h3 = seq!['0', '0', text::hex_digit_char(n / 16)];
        assert(h3.drop_last() =~= seq!['0', '0']);
        assert(hex_digits_value(h3) == Some(n / 16));
        assert(h.drop_last() =~= h3);
        assert(hex_digits_value(h) == Some(n));
    }
}

proof fn zeros_value()
    ensures
        hex_digits_value(seq!['0']) == Some(0nat),
        hex_digits_value(seq!['0', '0']) == Some(0nat),
        hex_digits_value(seq!['0', '0', '0']) == Some(0nat),
{
    assert(hex_digits_value(Seq::<char>::empty()) == Some(0nat));
    assert(seq!['0'].drop_last() =~= Seq::<char>::empty());
    assert(seq!['0'].last() == '0');
    assert(hex_digits_value(seq!['0']) == Some(0nat));
    assert(seq!['0', '0'].drop_last() =~= seq!['0']);
    assert(seq!['0', '0'].last() == '0');
    assert(hex_digits_value(seq!['0', '0']) == Some(0nat));
    assert(seq!['0', '0', '0'].drop_last() =~= seq!['0', '0']);
    assert(seq!['0', '0', '0'].last() == '0');
}

proof fn lemma_escape_char_parse(c: char, tail: Seq<char>)
    ensures
        string_body(escape_char(c) + tail) == prepend(
            seq![c],
            escape_char(c).len(),
            string_body(tail),
        ),
{
    let s = escape_char(c) + tail;
    if c == '"' || c == '\\' || c == '\n' || c == '\r' || c == '\t' {
        assert(s[0] == '\\');
        assert(s.skip(2) =~= tail);
    } else if (c as u32) < 0x20 {
        lemma_hex_padded_small(c as nat);
        assert(s[0] == '\\');
        assert(s[1] == 'u');
        assert(s.subrange(2, 6) =~= text::hex_padded(c as nat, 4));
        assert(s.skip(6) =~= tail);
        assert(vstd::utf8::is_scalar(c as u32));
        assert(((c as nat) as u32) as char == c);
    } else {
        assert(s[0] == c);
        assert(s.skip(1) =~= tail);
    }
}

/// Parsing the JSON literal that `escape_json_string` makes of a string gives back
/// that string, and consumes exactly the literal.
pub proof fn lemma_escape_then_parse(s: Seq<char>, rest: Seq<char>)
    ensures
        json_string(json_quoted(s) + rest) == Some((s, json_quoted(s).len())),
{
    let q = json_quoted(s) + rest;
    assert(text::leading_whitespace(q) == 0);
    assert(q.skip(0) == q);
    assert(q.drop_first() =~= escape_body(s) + (seq!['"'] + rest));
    lemma_body_roundtrip(s, rest);
}

proof fn lemma_body_roundtrip(s: Seq<char>, rest: Seq<char>)
    ensures
        string_body(escape_body(s) + (seq!['"'] + rest)) == Some((s, escape_body(s).len() + 1)),
    decreases s.len(),
{
    if s.len() == 0 {
        assert(escape_body(s) + (seq!['"'] + rest) =~= seq!['"'] + rest);
    } else {
        let tail = escape_body(s.drop_first()) + (seq!['"'] + rest);
        lemma_body_roundtrip(s.drop_first(), rest);
        lemma_escape_char_parse(s[0], tail);
        assert(escape_body(s) + (seq!['"'] + rest) =~= escape_char(s[0]) + tail);
        assert(seq![s[0]] + s.drop_first() =~= s);
    }
}

// ---------------------------------------------------------------------------
// JSON values.

/// A JSON value as this parser reads it. A number keeps the text it was written
/// with; that text reads as an `f64` (see `is_float_text`).
pub enum Json {
    Str(Seq<char>),
    Num(Seq<char>),
    Arr(Seq<Json>),
    Obj(Seq<(Seq<char>, Json)>),
    Null,
}

/// A parsed JSON value. A number holds its text, which reads as an `f64`.
pub enum JsonValue {
    String(String),
    Number(String),
    Array(Vec<JsonValue>),
    Object(Vec<(String, JsonValue)>),
    Null,
}

impl JsonValue {
    /// The value this holds.
    pub open spec fn json(self) -> Json
        decreases self,
    {
        match self {
            JsonValue::String(s) => Json::Str(s@),
            JsonValue::Number(t) => Json::Num(t@),
            JsonValue::Array(items) => Json::Arr(
                Seq::new(
                    items.len() as nat,
                    |k: int|
                        if 0 <= k < items.len() {
                            items@[k].json()
                        } else {
                            Json::Null
                        },
                ),
            ),
            JsonValue::Object(fields) => Json::Obj(
                Seq::new(
                    fields.len() as nat,
                    |k: int|
                        if 0 <= k < fields.len() {
                            (fields@[k].0@, fields@[k].1.json())
                        } else {
                            (Seq::empty(), Json::Null)
                        },
                ),
            ),
            JsonValue::Null => Json::Null,
        }
    }

    /// The text of a string value.
    pub fn as_str(&self) -> (r: Option<&str>)
        ensures
            match self {
                JsonValue::String(s) => r matches Some(t) && t@ == s@,
                _ => r is None,
            },
    {
        match self {
            JsonValue::String(s) => Some(s.as_str()),
            _ => None,
        }
    }
}

/// The values of a list of items.
pub open spec fn items_json(items: Seq<JsonValue>) -> Seq<Json> {
    Seq::new(items.len(), |k: int| items[k].json())
}

/// The keys and values of a list of fields.
pub open spec fn fields_json(fields: Seq<(String, JsonValue)>) -> Seq<(Seq<char>, Json)> {
    Seq::new(fields.len(), |k: int| (fields[k].0@, fields[k].1.json()))
}

proof fn lemma_array_json(items: Vec<JsonValue>)
    ensures
        JsonValue::Array(items).json() == Json::Arr(items_json(items@)),
{
    let v = JsonValue::Array(items);
    match v.json() {
        Json::Arr(s) => {
            assert(s =~= items_json(items@));
        },
        _ => {},
    }
}

proof fn lemma_object_json(fields: Vec<(String, JsonValue)>)
    ensures
        JsonValue::Object(fields).json() == Json::Obj(fields_json(fields@)),
{
    let v = JsonValue::Object(fields);
    match v.json() {
        Json::Obj(s) => {
            assert(s =~= fields_json(fields@));
        },
        _ => {},
    }
}

/// The position after the whitespace that starts at `i`.
pub open spec fn ws_end(cs: Seq<char>, i: nat) -> nat {
    i + text::leading_whitespace(cs.skip(i as int))
}

/// Whether `c` ends the text of a number: `,`, `}`, `]` or whitespace.
pub open spec fn ends_number(c: char) -> bool {
    c == ',' || c == '}' || c == ']' || text::is_whitespace(c)
}

/// How many leading characters of `s` belong to a number's text.
pub open spec fn number_len(s: Seq<char>) -> nat
    decreases s.len(),
{
    if s.len() > 0 && !ends_number(s[0]) {
        1 + number_len(s.drop_first())
    } else {
        0
    }
}

/// Whether `t` reads as an `f64`, by the grammar std's `f64::from_str` documents:
/// an optional sign, then `inf`, `infinity` or `nan` in any case, or a decimal number.
pub open spec fn is_float_text(t: Seq<char>) -> bool {
    let u = if t.len() > 0 && (t[0] == '+' || t[0] == '-') {
        t.drop_first()
    } else {
        t
    };
    let l = text::ascii_lowercase(u);
    l == "inf"@ || l == "infinity"@ || l == "nan"@ || is_decimal_text(u)
}

/// Digits with an optional point, at least one digit in all, then an optional exponent.
pub open spec fn is_decimal_text(u: Seq<char>) -> bool {
    let a = text::digit_run(u);
    let r1 = u.skip(a as int);
    let has_point = r1.len() > 0 && r1[0] == '.';
    let b = if has_point {
        text::digit_run(r1.drop_first())
    } else {
        0
    };
    let r2 = if has_point {
        r1.skip(1 + b as int)
    } else {
        r1
    };
    (a > 0 || b > 0) && (r2.len() == 0 || is_exponent(r2))
}

/// `e` or `E`, an optional sign, and one or more digits.
pub open spec fn is_exponent(r: Seq<char>) -> bool {
    let d = r.drop_first();
    let ds = if d.len() > 0 && (d[0] == '+' || d[0] == '-') {
        d.drop_first()
    } else {
        d
    };
    r.len() > 0 && (r[0] == 'e' || r[0] == 'E') && ds.len() > 0 && text::digit_run(ds) == ds.len()
}

/// Parses a JSON value at position `i` of `cs`, after any whitespace: the value and
/// the position after it.
pub open spec fn value_at(cs: Seq<char>, i: nat) -> Option<(Json, nat)>
    decreases 3 * (cs.len() - i) + 2,
{
    if i > cs.len() {
        None
    } else {
        proof {
            text::lemma_trim_start_skip(cs.skip(i as int));
        }
        let p = ws_end(cs, i);
        if p >= cs.len() {
            None
        } else if cs[p as int] == '"' {
            match string_body(cs.skip(p + 1int)) {
                Some((t, n)) => Some((Json::Str(t), p + 1 + n)),
                None => None,
            }
        } else if cs[p as int] == '{' {
            object_at(cs, p)
        } else if cs[p as int] == '[' {
            array_at(cs, p)
        } else if cs[p as int] == 'n' {
            if "null"@.is_prefix_of(cs.skip(p as int)) {
                Some((Json::Null, p + 4))
            } else {
                None
            }
        } else {
            let e = p + number_len(cs.skip(p as int));
            if is_float_text(cs.subrange(p as int, e as int)) {
                Some((Json::Num(cs.subrange(p as int, e as int)), e))
            } else {
                None
            }
        }
    }
}

/// Parses the object whose `{` is at position `p`.
pub open spec fn object_at(cs: Seq<char>, p: nat) -> Option<(Json, nat)>
    decreases 3 * (cs.len() - p) + 1,
{
    if p >= cs.len() {
        None
    } else {
        match members_from(cs, p + 1, true) {
            Some((fs, e)) => Some((Json::Obj(fs), e)),
            None => None,
        }
    }
}

/// Where the next member's key starts, after the whitespace at `q`: at once for the
/// first member, else after a `,`.
pub open spec fn member_start(cs: Seq<char>, q: nat, first: bool) -> Option<nat> {
    if first {
        Some(q)
    } else if q < cs.len() && cs[q as int] == ',' {
        Some(ws_end(cs, q + 1))
    } else {
        None
    }
}

/// Parses one member `"key": value` at position `s0`: the key, the value and the
/// position after the value.
pub open spec fn member_at(cs: Seq<char>, s0: nat) -> Option<(Seq<char>, Json, nat)>
    decreases 3 * (cs.len() - s0) + 2,
{
    if s0 > cs.len() {
        None
    } else {
        match json_string(cs.skip(s0 as int)) {
            None => None,
            Some((key, n)) => {
                proof {
                    text::lemma_trim_start_skip(cs.skip((s0 + n) as int));
                }
                let a = ws_end(cs, s0 + n);
                if s0 + n <= cs.len() && a < cs.len() && cs[a as int] == ':' {
                    match value_at(cs, a + 1) {
                        Some((v, e)) => Some((key, v, e)),
                        None => None,
                    }
                } else {
                    None
                }
            },
        }
    }
}

/// Parses the members of an object from position `k` through its `}`; `first` when
/// no member was read yet.
pub open spec fn members_from(cs: Seq<char>, k: nat, first: bool) -> Option<(Seq<(Seq<char>, Json)>, nat)>
    decreases 3 * (cs.len() - k) + 3,
{
    if k > cs.len() {
        None
    } else {
        proof {
            text::lemma_trim_start_skip(cs.skip(k as int));
        }
        let q = ws_end(cs, k);
        if q < cs.len() && cs[q as int] == '}' {
            Some((seq![], q + 1))
        } else {
            match member_start(cs, q, first) {
                None => None,
                Some(s0) => {
                    proof {
                        if !first && q < cs.len() {
                            text::lemma_trim_start_skip(cs.skip(q + 1int));
                        }
                    }
                    match member_at(cs, s0) {
                        Some((key, v, e)) => if k < e <= cs.len() {
                            match members_from(cs, e, false) {
                                Some((rest, e2)) => Some((seq![(key, v)] + rest, e2)),
                                None => None,
                            }
                        } else {
                            None
                        },
                        None => None,
                    }
                },
            }
        }
    }
}

/// Parses the array whose `[` is at position `p`.
pub open spec fn array_at(cs: Seq<char>, p: nat) -> Option<(Json, nat)>
    decreases 3 * (cs.len() - p) + 1,
{
    if p >= cs.len() {
        None
    } else {
        match items_from(cs, p + 1, true) {
            Some((vs, e)) => Some((Json::Arr(vs), e)),
            None => None,
        }
    }
}

/// Parses the items of an array from position `k` through its `]`; `first` when no
/// item was read yet.
pub open spec fn items_from(cs: Seq<char>, k: nat, first: bool) -> Option<(Seq<Json>, nat)>
    decreases 3 * (cs.len() - k) + 3,
{
    if k > cs.len() {
        None
    } else {
        proof {
            text::lemma_trim_start_skip(cs.skip(k as int));
        }
        let q = ws_end(cs, k);
        if q < cs.len() && cs[q as int] == ']' {
            Some((seq![], q + 1))
        } else {
            let start = if first {
                Some(q)
            } else if q < cs.len() && cs[q as int] == ',' {
                Some(q + 1)
            } else {
                None
            };
            match start {
                None => None,
                Some(s0) => match value_at(cs, s0) {
                    Some((v, e)) => if k < e <= cs.len() {
                        match items_from(cs, e, false) {
                            Some((rest, e2)) => Some((seq![v] + rest, e2)),
                            None => None,
                        }
                    } else {
                        None
                    },
                    None => None,
                },
            }
        }
    }
}

fn ws_end_exec(cs: &[char], i: usize) -> (j: usize)
    requires
        i <= cs.len(),
    ensures
        j == ws_end(cs@, i as nat),
        i <= j <= cs.len(),
{
    let j = skip_whitespace(cs, i);
    proof {
        text::lemma_trim_start_skip(cs@.skip(i as int));
        let lw = text::leading_whitespace(cs@.skip(i as int));
        assert(cs@.skip(i as int).skip(lw as int) =~= cs@.skip(i + lw));
        assert(cs@.skip(j as int).len() == cs@.skip(i + lw).len());
    }
    j
}

fn number_end(cs: &[char], p: usize) -> (e: usize)
    requires
        p <= cs.len(),
    ensures
        e == p + number_len(cs@.skip(p as int)),
        e <= cs.len(),
{
    let mut e = p;
    assert(cs@.skip(p as int) == cs@.skip(p as int));
    while e < cs.len() && !(cs[e] == ',' || cs[e] == '}' || cs[e] == ']' || text::char_is_whitespace(cs[e]))
        invariant
            p <= e <= cs.len(),
            number_len(cs@.skip(p as int)) == (e - p) + number_len(cs@.skip(e as int)),
        decreases cs.len() - e,
    {
        assert(cs@.skip(e as int).drop_first() == cs@.skip(e + 1));
        e = e + 1;
    }
    e
}

fn digits_end(cs: &[char], from: usize, to: usize) -> (r: usize)
    requires
        from <= to <= cs.len(),
    ensures
        r == from + text::digit_run(cs@.subrange(from as int, to as int)),
        r <= to,
{
    let mut r = from;
    while r < to && cs[r] >= '0' && cs[r] <= '9'
        invariant
            from <= r <= to <= cs.len(),
            text::digit_run(cs@.subrange(from as int, to as int)) == (r - from) + text::digit_run(
                cs@.subrange(r as int, to as int),
            ),
        decreases to - r,
    {
        assert(cs@.subrange(r as int, to as int).drop_first() == cs@.subrange(r + 1, to as int));
        r = r + 1;
    }
    r
}

fn exponent_at(cs: &[char], m: usize, to: usize) -> (r: bool)
    requires
        m < to <= cs.len(),
    ensures
        r == is_exponent(cs@.subrange(m as int, to as int)),
{
    let ghost r0 = cs@.subrange(m as int, to as int);
    if cs[m] != 'e' && cs[m] != 'E' {
        return false;
    }
    assert(r0.drop_first() == cs@.subrange(m + 1, to as int));
    let mut d = m + 1;
    if d < to && (cs[d] == '+' || cs[d] == '-') {
        assert(cs@.subrange(m + 1, to as int).drop_first() == cs@.subrange(d + 1, to as int));
        d = d + 1;
    }
    if d == to {
        return false;
    }
    digits_end(cs, d, to) == to
}

/// Whether `cs[from..to]` reads as an `f64` (see `is_float_text`).
fn float_text_at(cs: &[char], from: usize, to: usize) -> (r: bool)
    requires
        from <= to <= cs.len(),
    ensures
        r == is_float_text(cs@.subrange(from as int, to as int)),
{
    let ghost t = cs@.subrange(from as int, to as int);
    let mut u0 = from;
    if from < to && (cs[from] == '+' || cs[from] == '-') {
        assert(t.drop_first() == cs@.subrange(from + 1, to as int));
        u0 = from + 1;
    }
    let ghost u = cs@.subrange(u0 as int, to as int);
    assert(u == (if t.len() > 0 && (t[0] == '+' || t[0] == '-') {
        t.drop_first()
    } else {
        t
    }));
    if text::lower_eq(cs, u0, to, "inf") || text::lower_eq(cs, u0, to, "infinity") || text::lower_eq(cs, u0, to, "nan") {
        return true;
    }
    let a = digits_end(cs, u0, to);
    assert(u.skip((a - u0) as int) == cs@.subrange(a as int, to as int));
    let has_point = a < to && cs[a] == '.';
    let mut m = a;
    if has_point {
        assert(cs@.subrange(a as int, to as int).drop_first() == cs@.subrange(a + 1, to as int));
        m = digits_end(cs, a + 1, to);
        assert(cs@.subrange(a as int, to as int).skip(1 + (m - a - 1)) == cs@.subrange(m as int, to as int));
    }
    let has_digits = a > u0 || (has_point && m > a + 1);
    if !has_digits {
        return false;
    }
    if m == to {
        return true;
    }
    exponent_at(cs, m, to)
}

fn push_field(fields: &mut Vec<(String, JsonValue)>, key: String, v: JsonValue)
    ensures
        fields_json(final(fields)@) == fields_json(old(fields)@).push((key@, v.json())),
        final(fields).len() == old(fields).len() + 1,
{
    let ghost k = key@;
    let ghost j = v.json();
    fields.push((key, v));
    assert(fields_json(fields@) =~= fields_json(old(fields)@).push((k, j)));
}

fn push_item(items: &mut Vec<JsonValue>, v: JsonValue)
    ensures
        items_json(final(items)@) == items_json(old(items)@).push(v.json()),
        final(items).len() == old(items).len() + 1,
{
    let ghost j = v.json();
    items.push(v);
    assert(items_json(items@) =~= items_json(old(items)@).push(j));
}

/// What an object parse gives, once the members in `acc` were read.
pub open spec fn after_members(acc: Seq<(Seq<char>, Json)>, r: Option<(Seq<(Seq<char>, Json)>, nat)>) -> Option<(Json, nat)> {
    match r {
        Some((rest, e)) => Some((Json::Obj(acc + rest), e)),
        None => None,
    }
}

/// What an array parse gives, once the items in `acc` were read.
pub open spec fn after_items(acc: Seq<Json>, r: Option<(Seq<Json>, nat)>) -> Option<(Json, nat)> {
    match r {
        Some((rest, e)) => Some((Json::Arr(acc + rest), e)),
        None => None,
    }
}

/// The string literal whose quote is at `s1`, as the key parse at `s0` reads it.
proof fn lemma_key_at(cs: Seq<char>, s0: nat, s1: nat)
    requires
        s0 <= cs.len(),
        s1 == ws_end(cs, s0),
        s1 < cs.len(),
        cs[s1 as int] == '"',
    ensures
        json_string(cs.skip(s0 as int)) == prepend(seq![], (s1 - s0 + 1) as nat, string_body(cs.skip(s1 + 1int))),
{
    let s = cs.skip(s0 as int);
    text::lemma_trim_start_skip(s);
    let lead = text::leading_whitespace(s);
    assert(s.skip(lead as int) =~= cs.skip(s1 as int));
    assert(cs.skip(s1 as int).drop_first() =~= cs.skip(s1 + 1int));
}

fn parse_value_at(cs: &[char], i: usize) -> (r: Option<(JsonValue, usize)>)
    requires
        i <= cs.len(),
    ensures
        match value_at(cs@, i as nat) {
            None => r is None,
            Some((j, e)) => r matches Some((v, e2)) && v.json() == j && e2 == e,
        },
        r matches Some((_, e)) ==> e <= cs.len(),
    decreases 3 * (cs.len() - i) + 2,
{
    let p = ws_end_exec(cs, i);
    if p >= cs.len() {
        return None;
    }
    let c = cs[p];
    if c == '"' {
        match parse_string_body(cs, p + 1) {
            None => None,
            Some((t, e)) => Some((JsonValue::String(t), e)),
        }
    } else if c == '{' {
        parse_object_at(cs, p)
    } else if c == '[' {
        parse_array_at(cs, p)
    } else if c == 'n' {
        proof {
            reveal_strlit("null");
        }
        if cs.len() - p >= 4 && cs[p + 1] == 'u' && cs[p + 2] == 'l' && cs[p + 3] == 'l' {
            assert("null"@.is_prefix_of(cs@.skip(p as int))) by {
                assert(cs@.skip(p as int).subrange(0, 4) =~= "null"@);
            }
            Some((JsonValue::Null, p + 4))
        } else {
            assert(!"null"@.is_prefix_of(cs@.skip(p as int))) by {
                if "null"@.is_prefix_of(cs@.skip(p as int)) {
                    assert(cs@.skip(p as int).subrange(0, 4)[1] == cs@[p + 1]);
                    assert(cs@.skip(p as int).subrange(0, 4)[2] == cs@[p + 2]);
                    assert(cs@.skip(p as int).subrange(0, 4)[3] == cs@[p + 3]);
                }
            }
            None
        }
    } else {
        let e = number_end(cs, p);
        if float_text_at(cs, p, e) {
            Some((JsonValue::Number(text::string_of_range(cs, p, e)), e))
        } else {
            None
        }
    }
}

fn parse_member_at(cs: &[char], s0: usize) -> (r: Option<(String, JsonValue, usize)>)
    requires
        s0 <= cs.len(),
    ensures
        match member_at(cs@, s0 as nat) {
            None => r is None,
            Some((key, j, e)) => r matches Some((k2, v, e2)) && k2@ == key && v.json() == j && e2 == e,
        },
        r matches Some((_, _, e)) ==> e <= cs.len(),
    decreases 3 * (cs.len() - s0) + 2,
{
    let s1 = ws_end_exec(cs, s0);
    if s1 >= cs.len() || cs[s1] != '"' {
        proof {
            let s = cs@.skip(s0 as int);
            text::lemma_trim_start_skip(s);
            assert(s.skip(text::leading_whitespace(s) as int) =~= cs@.skip(s1 as int));
            if s1 < cs.len() {
                assert(cs@.skip(s1 as int)[0] == cs@[s1 as int]);
            }
        }
        return None;
    }
    proof {
        lemma_key_at(cs@, s0 as nat, s1 as nat);
    }
    let (key, kend) = match parse_string_body(cs, s1 + 1) {
        None => {
            return None;
        },
        Some(x) => x,
    };
    let a = ws_end_exec(cs, kend);
    if a >= cs.len() || cs[a] != ':' {
        return None;
    }
    match parse_value_at(cs, a + 1) {
        None => None,
        Some((v, e)) => Some((key, v, e)),
    }
}

fn parse_object_at(cs: &[char], p: usize) -> (r: Option<(JsonValue, usize)>)
    requires
        p < cs.len(),
    ensures
        match object_at(cs@, p as nat) {
            None => r is None,
            Some((j, e)) => r matches Some((v, e2)) && v.json() == j && e2 == e,
        },
        r matches Some((_, e)) ==> e <= cs.len(),
    decreases 3 * (cs.len() - p) + 1,
{
    let mut fields: Vec<(String, JsonValue)> = Vec::new();
    let mut k = p + 1;
    assert(fields_json(fields@) =~= Seq::<(Seq<char>, Json)>::empty());
    assert(after_members(fields_json(fields@), members_from(cs@, k as nat, true)) == object_at(cs@, p as nat)) by {
        match members_from(cs@, k as nat, true) {
            Some((fs, e)) => {
                assert(fields_json(fields@) + fs =~= fs);
            },
            None => {},
        }
    }
    loop
        invariant
            p < k <= cs.len(),
            after_members(fields_json(fields@), members_from(cs@, k as nat, fields.len() == 0)) == object_at(
                cs@,
                p as nat,
            ),
        decreases cs.len() - k,
    {
        let q = ws_end_exec(cs, k);
        if q < cs.len() && cs[q] == '}' {
            proof {
                lemma_object_json(fields);
                assert(fields_json(fields@) + Seq::<(Seq<char>, Json)>::empty() =~= fields_json(fields@));
            }
            return Some((JsonValue::Object(fields), q + 1));
        }
        let s0 = if fields.len() == 0 {
            q
        } else if q < cs.len() && cs[q] == ',' {
            ws_end_exec(cs, q + 1)
        } else {
            return None;
        };
        assert(member_start(cs@, q as nat, fields.len() == 0) == Some(s0 as nat));
        let (key, v, e) = match parse_member_at(cs, s0) {
            None => {
                return None;
            },
            Some(x) => x,
        };
        if !(k < e && e <= cs.len()) {
            return None;
        }
        let ghost acc = fields_json(fields@);
        let ghost kv = (key@, v.json());
        push_field(&mut fields, key, v);
        proof {
            match members_from(cs@, e as nat, false) {
                Some((rest, e2)) => {
                    assert(acc + (seq![kv] + rest) =~= acc.push(kv) + rest);
                },
                None => {},
            }
        }
        k = e;
    }
}

fn parse_array_at(cs: &[char], p: usize) -> (r: Option<(JsonValue, usize)>)
    requires
        p < cs.len(),
    ensures
        match array_at(cs@, p as nat) {
            None => r is None,
            Some((j, e)) => r matches Some((v, e2)) && v.json() == j && e2 == e,
        },
        r matches Some((_, e)) ==> e <= cs.len(),
    decreases 3 * (cs.len() - p) + 1,
{
    let mut items: Vec<JsonValue> = Vec::new();
    let mut k = p + 1;
    assert(items_json(items@) =~= Seq::<Json>::empty());
    assert(after_items(items_json(items@), items_from(cs@, k as nat, true)) == array_at(cs@, p as nat)) by {
        match items_from(cs@, k as nat, true) {
            Some((vs, e)) => {
                assert(items_json(items@) + vs =~= vs);
            },
            None => {},
        }
    }
    loop
        invariant
            p < k <= cs.len(),
            after_items(items_json(items@), items_from(cs@, k as nat, items.len() == 0)) == array_at(
                cs@,
                p as nat,
            ),
        decreases cs.len() - k,
    {
        let q = ws_end_exec(cs, k);
        if q < cs.len() && cs[q] == ']' {
            proof {
                lemma_array_json(items);
                assert(items_json(items@) + Seq::<Json>::empty() =~= items_json(items@));
            }
            return Some((JsonValue::Array(items), q + 1));
        }
        let s0 = if items.len() == 0 {
            q
        } else if q < cs.len() && cs[q] == ',' {
            q + 1
        } else {
            return None;
        };
        let (v, e) = match parse_value_at(cs, s0) {
            None => {
                return None;
            },
            Some(x) => x,
        };
        if !(k < e && e <= cs.len()) {
            return None;
        }
        let ghost acc = items_json(items@);
        let ghost j = v.json();
        push_item(&mut items, v);
        proof {
            match items_from(cs@, e as nat, false) {
                Some((rest, e2)) => {
                    assert(acc + (seq![j] + rest) =~= acc.push(j) + rest);
                },
                None => {},
            }
        }
        k = e;
    }
}

/// Parses a JSON value at the front of `s`, after any whitespace: the value and
/// what follows it.
pub fn parse_json_value(s: &str) -> (r: Option<(JsonValue, &str)>)
    ensures
        match value_at(s@, 0) {
            None => r is None,
            Some((j, e)) => r matches Some((v, rest)) && v.json() == j && rest@ == s@.skip(e as int),
        },
{
    let cs = chars_of(s);
    match parse_value_at(cs.as_slice(), 0) {
        None => None,
        Some((v, e)) => {
            let rest = s.substring_char(e, cs.len());
            assert(s@.subrange(e as int, s@.len() as int) == s@.skip(e as int));
            Some((v, rest))
        },
    }
}

impl JsonValue {
    /// A copy of this value.
    pub fn duplicate(&self) -> (r: JsonValue)
        ensures
            r.json() == self.json(),
        decreases self,
    {
        match self {
            JsonValue::String(s) => JsonValue::String(s.clone()),
            JsonValue::Number(t) => JsonValue::Number(t.clone()),
            JsonValue::Null => JsonValue::Null,
            JsonValue::Array(items) => {
                let mut out: Vec<JsonValue> = Vec::new();
                let mut k: usize = 0;
                while k < items.len()
                    invariant
                        self is Array,
                        self->Array_0 == *items,
                        k <= items.len(),
                        items_json(out@) == items_json(items@).take(k as int),
                    decreases items.len() - k,
                {
                    proof {
                        assert(decreases_to!(self => self->Array_0@[k as int]));
                    }
                    let v = items[k].duplicate();
                    let ghost before = items_json(out@);
                    push_item(&mut out, v);
                    assert(items_json(items@).take(k + 1) =~= before.push(items_json(items@)[k as int]));
                    k = k + 1;
                }
                proof {
                    lemma_array_json(out);
                    lemma_array_json(*items);
                    assert(items_json(items@).take(items.len() as int) =~= items_json(items@));
                }
                JsonValue::Array(out)
            },
            JsonValue::Object(fields) => {
                let mut out: Vec<(String, JsonValue)> = Vec::new();
                let mut k: usize = 0;
                while k < fields.len()
                    invariant
                        self is Object,
                        self->Object_0 == *fields,
                        k <= fields.len(),
                        fields_json(out@) == fields_json(fields@).take(k as int),
                    decreases fields.len() - k,
                {
                    proof {
                        assert(decreases_to!(self => self->Object_0@[k as int].1));
                    }
                    let v = fields[k].1.duplicate();
                    let key = fields[k].0.clone();
                    let ghost before = fields_json(out@);
                    push_field(&mut out, key, v);
                    assert(fields_json(fields@).take(k + 1) =~= before.push(fields_json(fields@)[k as int]));
                    k = k + 1;
                }
                proof {
                    lemma_object_json(out);
                    lemma_object_json(*fields);
                    assert(fields_json(fields@).take(fields.len() as int) =~= fields_json(fields@));
                }
                JsonValue::Object(out)
            },
        }
    }
}

/// Whether a field with key `key` comes after position `i` of `fs`.
pub open spec fn key_later(fs: Seq<(Seq<char>, Json)>, i: int, key: Seq<char>) -> bool {
    exists|j: int| i < j < fs.len() && (#[trigger] fs[j]).0 == key
}

/// The fields of an object with each key kept once, at the value of its last
/// occurrence, in the order in which the keys last occur.
pub open spec fn last_wins(fs: Seq<(Seq<char>, Json)>) -> Seq<(Seq<char>, Json)>
    decreases fs.len(),
{
    if fs.len() == 0 {
        seq![]
    } else {
        let rest = last_wins(fs.drop_first());
        if key_later(fs, 0, fs[0].0) {
            rest
        } else {
            seq![fs[0]] + rest
        }
    }
}

/// The fields of an exec result object, one per key, the last value of a repeated
/// key winning; `None` when the value is not an object.
pub fn parse_exec_result(obj: &JsonValue) -> (r: Option<Vec<(String, JsonValue)>>)
    ensures
        match obj.json() {
            Json::Obj(fs) => r matches Some(v) && fields_json(v@) == last_wins(fs),
            _ => r is None,
        },
{
    match obj {
        JsonValue::Object(fields) => {
            proof {
                lemma_object_json(*fields);
            }
            let ghost fj = fields_json(fields@);
            let mut out: Vec<(String, JsonValue)> = Vec::new();
            let mut i: usize = 0;
            assert(fj.skip(0) =~= fj);
            assert(fields_json(out@) + last_wins(fj.skip(0)) =~= last_wins(fj));
            while i < fields.len()
                invariant
                    fj == fields_json(fields@),
                    i <= fields.len(),
                    fields_json(out@) + last_wins(fj.skip(i as int)) == last_wins(fj),
                decreases fields.len() - i,
            {
                let mut later = false;
                let mut j = i + 1;
                while j < fields.len()
                    invariant
                        fj == fields_json(fields@),
                        i < j <= fields.len(),
                        later == exists|m: int| i < m < j && (#[trigger] fj[m]).0 == fj[i as int].0,
                    decreases fields.len() - j,
                {
                    if str_eq(fields[j].0.as_str(), fields[i].0.as_str()) {
                        later = true;
                        assert(fj[j as int].0 == fj[i as int].0);
                    }
                    j = j + 1;
                }
                let ghost t = fj.skip(i as int);
                assert(t.drop_first() =~= fj.skip(i + 1));
                assert(key_later(t, 0, t[0].0) == later) by {
                    if later {
                        let m = choose|m: int| i < m < fields.len() && (#[trigger] fj[m]).0 == fj[i as int].0;
                        assert(t[m - i] == fj[m]);
                    }
                    if key_later(t, 0, t[0].0) {
                        let m = choose|m: int| 0 < m < t.len() && (#[trigger] t[m]).0 == t[0].0;
                        assert(fj[m + i] == t[m]);
                    }
                }
                if !later {
                    let ghost before = fields_json(out@);
                    let key = fields[i].0.clone();
                    let v = fields[i].1.duplicate();
                    push_field(&mut out, key, v);
                    assert(before.push(t[0]) + last_wins(t.drop_first()) =~= before + (seq![t[0]] + last_wins(t.drop_first())));
                }
                i = i + 1;
            }
            assert(fj.skip(fields.len() as int) =~= Seq::<(Seq<char>, Json)>::empty());
            assert(fields_json(out@) + Seq::<(Seq<char>, Json)>::empty() =~= fields_json(out@));
            Some(out)
        },
        _ => None,
    }
}

/// The value parser reads the literal that `escape_json_string` makes of a string
/// as that string, and stops right after the literal.
pub proof fn lemma_escape_then_parse_value(s: Seq<char>, rest: Seq<char>)
    ensures
        value_at(json_quoted(s) + rest, 0) == Some((Json::Str(s), json_quoted(s).len())),
{
    let cs = json_quoted(s) + rest;
    assert(cs.skip(0) =~= cs);
    assert(text::leading_whitespace(cs) == 0);
    assert(cs.skip(1) =~= escape_body(s) + (seq!['"'] + rest));
    lemma_body_roundtrip(s, rest);
}

// ---------------------------------------------------------------------------
// Every parse moves forward and stays within its input.

proof fn lemma_string_body_len(cs: Seq<char>)
    ensures
        string_body(cs) matches Some((_, n)) ==> 1 <= n <= cs.len(),
    decreases cs.len(),
{
    if cs.len() > 0 && cs[0] != '"' {
        if cs[0] == '\\' {
            if cs.len() >= 2 {
                lemma_string_body_len(cs.skip(2));
                if cs.len() >= 6 {
                    lemma_string_body_len(cs.skip(6));
                    if cs.skip(6).len() >= 6 {
                        lemma_string_body_len(cs.skip(6).skip(6));
                    }
                }
            }
        } else {
            lemma_string_body_len(cs.skip(1));
        }
    }
}

proof fn lemma_json_string_len(s: Seq<char>)
    ensures
        json_string(s) matches Some((_, n)) ==> 2 <= n <= s.len(),
{
    text::lemma_trim_start_skip(s);
    let lead = text::leading_whitespace(s);
    let t = s.skip(lead as int);
    if t.len() > 0 && t[0] == '"' {
        lemma_string_body_len(t.drop_first());
    }
}

proof fn lemma_ws_end(cs: Seq<char>, i: nat)
    requires
        i <= cs.len(),
    ensures
        i <= ws_end(cs, i) <= cs.len(),
{
    text::lemma_trim_start_skip(cs.skip(i as int));
}

/// A value parsed at `i` ends after `i` and within the input.
pub proof fn lemma_value_end(cs: Seq<char>, i: nat)
    ensures
        value_at(cs, i) matches Some((_, e)) ==> i < e <= cs.len(),
    decreases 3 * (cs.len() - i) + 2,
{
    if i <= cs.len() {
        lemma_ws_end(cs, i);
        let p = ws_end(cs, i);
        if p < cs.len() {
            if cs[p as int] == '"' {
                lemma_string_body_len(cs.skip(p + 1int));
            } else if cs[p as int] == '{' {
                lemma_object_end(cs, p);
            } else if cs[p as int] == '[' {
                lemma_array_end(cs, p);
            } else if cs[p as int] == 'n' {
                if "null"@.is_prefix_of(cs.skip(p as int)) {
                    reveal_strlit("null");
                }
            } else {
                let n = number_len(cs.skip(p as int));
                lemma_number_len(cs.skip(p as int));
                if n == 0 {
                    assert(!is_float_text(cs.subrange(p as int, p as int))) by {
                        let t = cs.subrange(p as int, p as int);
                        assert(t.len() == 0);
                        assert(text::ascii_lowercase(t).len() == 0);
                        reveal_strlit("inf");
                        reveal_strlit("infinity");
                        reveal_strlit("nan");
                        assert(text::digit_run(t) == 0);
                    }
                }
            }
        }
    }
}

proof fn lemma_number_len(s: Seq<char>)
    ensures
        number_len(s) <= s.len(),
    decreases s.len(),
{
    if s.len() > 0 {
        lemma_number_len(s.drop_first());
    }
}

proof fn lemma_object_end(cs: Seq<char>, p: nat)
    ensures
        object_at(cs, p) matches Some((_, e)) ==> p < e <= cs.len(),
    decreases 3 * (cs.len() - p) + 1,
{
    if p < cs.len() {
        lemma_members_end(cs, p + 1, true);
    }
}

proof fn lemma_members_end(cs: Seq<char>, k: nat, first: bool)
    ensures
        members_from(cs, k, first) matches Some((_, e)) ==> k < e <= cs.len(),
    decreases 3 * (cs.len() - k) + 3,
{
    if k <= cs.len() {
        lemma_ws_end(cs, k);
        let q = ws_end(cs, k);
        if !(q < cs.len() && cs[q as int] == '}') {
            if !first && q < cs.len() {
                lemma_ws_end(cs, q + 1);
            }
            match member_start(cs, q, first) {
                Some(s0) => {
                    lemma_member_end(cs, s0);
                    match member_at(cs, s0) {
                        Some((_, _, e)) => {
                            if k < e <= cs.len() {
                                lemma_members_end(cs, e, false);
                            }
                        },
                        None => {},
                    }
                },
                None => {},
            }
        }
    }
}

proof fn lemma_member_end(cs: Seq<char>, s0: nat)
    ensures
        member_at(cs, s0) matches Some((_, _, e)) ==> s0 < e <= cs.len(),
    decreases 3 * (cs.len() - s0) + 2,
{
    if s0 <= cs.len() {
        lemma_json_string_len(cs.skip(s0 as int));
        match json_string(cs.skip(s0 as int)) {
            Some((_, n)) => {
                if s0 + n <= cs.len() {
                    lemma_ws_end(cs, s0 + n);
                    let a = ws_end(cs, s0 + n);
                    if a < cs.len() {
                        lemma_value_end(cs, a + 1);
                    }
                }
            },
            None => {},
        }
    }
}

proof fn lemma_array_end(cs: Seq<char>, p: nat)
    ensures
        array_at(cs, p) matches Some((_, e)) ==> p < e <= cs.len(),
    decreases 3 * (cs.len() - p) + 1,
{
    if p < cs.len() {
        lemma_items_end(cs, p + 1, true);
    }
}

proof fn lemma_items_end(cs: Seq<char>, k: nat, first: bool)
    ensures
        items_from(cs, k, first) matches Some((_, e)) ==> k < e <= cs.len(),
    decreases 3 * (cs.len() - k) + 3,
{
    if k <= cs.len() {
        lemma_ws_end(cs, k);
        let q = ws_end(cs, k);
        if !(q < cs.len() && cs[q as int] == ']') {
            let start = if first {
                Some(q)
            } else if q < cs.len() && cs[q as int] == ',' {
                Some(q + 1)
            } else {
                None
            };
            match start {
                Some(s0) => {
                    lemma_value_end(cs, s0);
                    match value_at(cs, s0) {
                        Some((_, e)) => {
                            if k < e <= cs.len() {
                                lemma_items_end(cs, e, false);
                            }
                        },
                        None => {},
                    }
                },
                None => {},
            }
        }
    }
}

/// What follows a member or item is parsed strictly after where the member or
/// item started, so the progress checks in `members_from` and `items_from` never
/// cut a parse short.
pub proof fn lemma_progress_checks_hold(cs: Seq<char>, k: nat, s0: nat)
    requires
        k <= s0 <= cs.len(),
    ensures
        member_at(cs, s0) matches Some((_, _, e)) ==> k < e <= cs.len(),
        value_at(cs, s0) matches Some((_, e)) ==> k < e <= cs.len(),
{
    lemma_member_end(cs, s0);
    lemma_value_end(cs, s0);
}

// ---------------------------------------------------------------------------
// Objects written member by member read back as those members.

/// A member's text, key and value: its key, the JSON text of its value, and the
/// value that text stands for.
pub open spec fn member_json(m: (Seq<char>, Seq<char>, Json)) -> (Seq<char>, Json) {
    (m.0, m.2)
}

/// The keys and values of a list of members.
pub open spec fn members_json(ms: Seq<(Seq<char>, Seq<char>, Json)>) -> Seq<(Seq<char>, Json)> {
    ms.map_values(|m: (Seq<char>, Seq<char>, Json)| member_json(m))
}

/// The text of an object's members and its closing brace: `"key":value` for each
/// member, separated by commas (one before the first member too unless `first`).
pub open spec fn members_text(ms: Seq<(Seq<char>, Seq<char>, Json)>, first: bool) -> Seq<char>
    decreases ms.len(),
{
    if ms.len() == 0 {
        seq!['}']
    } else {
        (if first {
            seq![]
        } else {
            seq![',']
        }) + json_quoted(ms[0].0) + seq![':'] + ms[0].1 + members_text(ms.drop_first(), false)
    }
}

/// The text of an object with the given members.
pub open spec fn object_text(ms: Seq<(Seq<char>, Seq<char>, Json)>) -> Seq<char> {
    seq!['{'] + members_text(ms, true)
}

/// Whether the text `t`, wherever it stands followed by `,` or `}`, parses as `v`
/// and ends where it ends.
pub open spec fn reads_as(t: Seq<char>, v: Json) -> bool {
    forall|cs: Seq<char>, i: nat|
        #![trigger value_at(cs, i)]
        i + t.len() < cs.len() && cs.subrange(i as int, (i + t.len()) as int) == t && (cs[(i + t.len()) as int] == ','
            || cs[(i + t.len()) as int] == '}') ==> value_at(cs, i) == Some((v, (i + t.len()) as nat))
}

proof fn lemma_not_whitespace(c: char)
    requires
        c == '"' || c == ',' || c == '}' || c == ':' || c == '{' || c == '-' || ('0' <= c <= '9'),
    ensures
        !text::is_whitespace(c),
{
}

proof fn lemma_ws_end_at(cs: Seq<char>, i: nat)
    requires
        i < cs.len(),
        !text::is_whitespace(cs[i as int]),
    ensures
        ws_end(cs, i) == i,
{
    assert(cs.skip(i as int)[0] == cs[i as int]);
}

/// A string literal reads as its string, wherever it stands.
pub proof fn lemma_string_reads_as(s: Seq<char>)
    ensures
        reads_as(json_quoted(s), Json::Str(s)),
{
    let t = json_quoted(s);
    assert forall|cs: Seq<char>, i: nat|
        i + t.len() < cs.len() && cs.subrange(i as int, (i + t.len()) as int) == t && (cs[(i + t.len()) as int] == ','
            || cs[(i + t.len()) as int] == '}') implies #[trigger] value_at(cs, i) == Some(
        (Json::Str(s), (i + t.len()) as nat),
    ) by {
        assert(cs[i as int] == cs.subrange(i as int, (i + t.len()) as int)[0]);
        lemma_not_whitespace(cs[i as int]);
        lemma_ws_end_at(cs, i);
        let rest = cs.skip((i + t.len()) as int);
        assert(cs.skip(i + 1int) =~= escape_body(s) + (seq!['"'] + rest)) by {
            assert forall|k: int| 0 <= k < cs.skip(i + 1int).len() implies cs.skip(i + 1int)[k] == (
            escape_body(s) + (seq!['"'] + rest))[k] by {
                if k < t.len() - 1 {
                    assert(cs.skip(i + 1int)[k] == cs.subrange(i as int, (i + t.len()) as int)[k + 1]);
                }
            }
        }
        lemma_body_roundtrip(s, rest);
    }
}

proof fn lemma_decimal_digits(n: nat)
    ensures
        text::decimal(n).len() >= 1,
        forall|k: int| 0 <= k < text::decimal(n).len() ==> text::is_ascii_digit(#[trigger] text::decimal(n)[k]),
    decreases n,
{
    if n >= 10 {
        lemma_decimal_digits(n / 10);
    }
}

proof fn lemma_digit_run_all(s: Seq<char>)
    requires
        forall|k: int| 0 <= k < s.len() ==> text::is_ascii_digit(#[trigger] s[k]),
    ensures
        text::digit_run(s) == s.len(),
    decreases s.len(),
{
    if s.len() > 0 {
        assert forall|k: int| 0 <= k < s.drop_first().len() implies text::is_ascii_digit(
            #[trigger] s.drop_first()[k],
        ) by {
            assert(s.drop_first()[k] == s[k + 1]);
        }
        lemma_digit_run_all(s.drop_first());
    }
}

proof fn lemma_number_len_stops(s: Seq<char>, n: nat)
    requires
        n < s.len(),
        forall|k: int| 0 <= k < n ==> !ends_number(#[trigger] s[k]),
        ends_number(s[n as int]),
    ensures
        number_len(s) == n,
    decreases n,
{
    if n > 0 {
        assert forall|k: int| 0 <= k < n - 1 implies !ends_number(#[trigger] s.drop_first()[k]) by {
            assert(s.drop_first()[k] == s[k + 1]);
        }
        assert(!ends_number(s[0]));
        lemma_number_len_stops(s.drop_first(), (n - 1) as nat);
    }
}

/// An integer written in decimal reads as a number with that text, wherever it stands.
pub proof fn lemma_decimal_reads_as(x: int)
    ensures
        reads_as(text::signed_decimal(x), Json::Num(text::signed_decimal(x))),
{
    let t = text::signed_decimal(x);
    let d = text::decimal(if x < 0 {
        (-x) as nat
    } else {
        x as nat
    });
    lemma_decimal_digits(if x < 0 {
        (-x) as nat
    } else {
        x as nat
    });
    assert(forall|k: int| 0 <= k < t.len() ==> (#[trigger] t[k] == '-' || text::is_ascii_digit(t[k]))) by {
        assert forall|k: int| 0 <= k < t.len() implies (#[trigger] t[k] == '-' || text::is_ascii_digit(t[k])) by {
            if x < 0 {
                if k > 0 {
                    assert(t[k] == d[k - 1]);
                }
            }
        }
    }
    let u = if t.len() > 0 && (t[0] == '+' || t[0] == '-') {
        t.drop_first()
    } else {
        t
    };
    assert(u =~= d) by {
        if x < 0 {
            assert(t[0] == '-');
            assert(t.drop_first() =~= d);
        } else {
            assert(text::is_ascii_digit(d[0]));
        }
    }
    lemma_digit_run_all(d);
    assert(d.skip(d.len() as int).len() == 0);
    assert(is_decimal_text(u));
    assert(is_float_text(t));
    assert forall|cs: Seq<char>, i: nat|
        i + t.len() < cs.len() && cs.subrange(i as int, (i + t.len()) as int) == t && (cs[(i + t.len()) as int] == ','
            || cs[(i + t.len()) as int] == '}') implies #[trigger] value_at(cs, i) == Some(
        (Json::Num(t), (i + t.len()) as nat),
    ) by {
        assert(cs[i as int] == t[0]);
        lemma_not_whitespace(cs[i as int]);
        lemma_ws_end_at(cs, i);
        let s = cs.skip(i as int);
        assert forall|k: int| 0 <= k < t.len() implies !ends_number(#[trigger] s[k]) by {
            assert(s[k] == t[k]);
            assert(t[k] == '-' || text::is_ascii_digit(t[k]));
        }
        assert(s[t.len() as int] == cs[(i + t.len()) as int]);
        lemma_number_len_stops(s, t.len());
        assert(cs.subrange(i as int, (i + t.len()) as int) == t);
    }
}

/// One member step: a key literal, a `:` and a value at `k` (after a `,` unless
/// `first`) are read as that member, followed by the members after the value.
proof fn lemma_member_step(cs: Seq<char>, k: nat, first: bool, key: Seq<char>, v: Json, e: nat)
    requires
        k < cs.len(),
        !first ==> cs[k as int] == ',',
        (if first { k } else { k + 1 }) + json_quoted(key).len() < cs.len(),
        cs.skip((if first { k } else { k + 1 }) as int) == json_quoted(key) + cs.skip(
            ((if first { k } else { k + 1 }) + json_quoted(key).len()) as int,
        ),
        cs[((if first { k } else { k + 1 }) + json_quoted(key).len()) as int] == ':',
        value_at(cs, (if first { k } else { k + 1 }) + json_quoted(key).len() + 1) == Some((v, e)),
    ensures
        members_from(cs, k, first) == match members_from(cs, e, false) {
            Some((rest, e2)) => Some((seq![(key, v)] + rest, e2)),
            None => None,
        },
{
    let s0: nat = if first {
        k
    } else {
        k + 1
    };
    let q = json_quoted(key);
    let a: nat = s0 + q.len();
    assert(cs[s0 as int] == '"') by {
        assert(cs.skip(s0 as int)[0] == q[0]);
    }
    lemma_not_whitespace(cs[k as int]);
    lemma_ws_end_at(cs, k);
    if !first {
        lemma_not_whitespace(cs[s0 as int]);
        lemma_ws_end_at(cs, s0);
    }
    assert(member_start(cs, k, first) == Some(s0));
    lemma_escape_then_parse(key, cs.skip(a as int));
    lemma_not_whitespace(cs[a as int]);
    lemma_ws_end_at(cs, a);
    assert(member_at(cs, s0) == Some((key, v, e)));
    lemma_value_end(cs, a + 1);
}

/// Reading the members of an object written by `members_text` gives them back.
#[verifier::spinoff_prover]
proof fn lemma_members_text(cs: Seq<char>, k: nat, ms: Seq<(Seq<char>, Seq<char>, Json)>, first: bool)
    requires
        k + members_text(ms, first).len() <= cs.len(),
        cs.subrange(k as int, (k + members_text(ms, first).len()) as int) == members_text(ms, first),
        forall|j: int| 0 <= j < ms.len() ==> reads_as((#[trigger] ms[j]).1, ms[j].2),
    ensures
        members_from(cs, k, first) == Some(
            (members_json(ms), (k + members_text(ms, first).len()) as nat),
        ),
    decreases ms.len(),
{
    let mt = members_text(ms, first);
    assert(cs[k as int] == mt[0]);
    if ms.len() == 0 {
        lemma_not_whitespace(cs[k as int]);
        lemma_ws_end_at(cs, k);
        assert(members_json(ms) =~= Seq::<(Seq<char>, Json)>::empty());
    } else {
        let m = ms[0];
        let lead: Seq<char> = if first {
            seq![]
        } else {
            seq![',']
        };
        let q = json_quoted(m.0);
        let tail = members_text(ms.drop_first(), false);
        assert(mt == lead + q + seq![':'] + m.1 + tail);
        let s0: nat = k + lead.len();
        let a: nat = s0 + q.len();
        let vstart: nat = a + 1;
        let e: nat = vstart + m.1.len();
        assert(cs.skip(s0 as int) =~= q + cs.skip(a as int)) by {
            assert forall|j: int| 0 <= j < q.len() implies cs.skip(s0 as int)[j] == q[j] by {
                assert(cs.skip(s0 as int)[j] == mt[lead.len() + j]);
            }
        }
        assert(cs[a as int] == ':') by {
            assert(cs[a as int] == mt[(lead.len() + q.len()) as int]);
        }
        assert(tail[0] == ',' || tail[0] == '}');
        assert(cs.subrange(vstart as int, e as int) =~= m.1) by {
            assert forall|j: int| 0 <= j < m.1.len() implies cs.subrange(vstart as int, e as int)[j] == m.1[j] by {
                assert(cs.subrange(vstart as int, e as int)[j] == mt[lead.len() + q.len() + 1 + j]);
            }
        }
        assert(cs[e as int] == tail[0]) by {
            assert(cs[e as int] == mt[(lead.len() + q.len() + 1 + m.1.len()) as int]);
        }
        assert(reads_as(ms[0].1, ms[0].2));
        assert(value_at(cs, vstart) == Some((m.2, e)));
        if !first {
            assert(cs[k as int] == ',');
        }
        lemma_member_step(cs, k, first, m.0, m.2, e);
        assert forall|j: int| 0 <= j < ms.drop_first().len() implies reads_as(
            (#[trigger] ms.drop_first()[j]).1,
            ms.drop_first()[j].2,
        ) by {
            assert(ms.drop_first()[j] == ms[j + 1]);
        }
        assert(cs.subrange(e as int, (e + tail.len()) as int) =~= tail) by {
            assert forall|j: int| 0 <= j < tail.len() implies cs.subrange(e as int, (e + tail.len()) as int)[j] == tail[j] by {
                assert(cs.subrange(e as int, (e + tail.len()) as int)[j] == mt[lead.len() + q.len() + 1 + m.1.len() + j]);
            }
        }
        lemma_members_text(cs, e, ms.drop_first(), false);
        assert(members_json(ms) =~= seq![member_json(m)] + members_json(ms.drop_first()));
    }
}

/// Parsing the text of an object written member by member gives back its members,
/// in order, and consumes exactly that text, when each value's text reads as the
/// value.
pub proof fn lemma_object_text_parses(ms: Seq<(Seq<char>, Seq<char>, Json)>, rest: Seq<char>)
    requires
        forall|j: int| 0 <= j < ms.len() ==> reads_as((#[trigger] ms[j]).1, ms[j].2),
    ensures
        value_at(object_text(ms) + rest, 0) == Some(
            (
                Json::Obj(members_json(ms)),
                object_text(ms).len(),
            ),
        ),
{
    let cs = object_text(ms) + rest;
    let mt = members_text(ms, true);
    assert(cs[0] == '{');
    lemma_not_whitespace(cs[0]);
    lemma_ws_end_at(cs, 0);
    assert(cs.subrange(1, 1 + mt.len() as int) =~= mt);
    lemma_members_text(cs, 1, ms, true);
}

/// A string whose characters need no escape is its own escape.
pub proof fn lemma_escape_body_plain(s: Seq<char>)
    requires
        forall|k: int| 0 <= k < s.len() ==> escape_char(#[trigger] s[k]) == seq![s[k]],
    ensures
        escape_body(s) == s,
    decreases s.len(),
{
    if s.len() > 0 {
        assert forall|k: int| 0 <= k < s.drop_first().len() implies escape_char(#[trigger] s.drop_first()[k])
            == seq![s.drop_first()[k]] by {
            assert(s.drop_first()[k] == s[k + 1]);
        }
        lemma_escape_body_plain(s.drop_first());
        assert(escape_char(s[0]) == seq![s[0]]);
        assert(seq![s[0]] + s.drop_first() =~= s);
    }
}

/// Fields with distinct keys are all kept, in order, by `last_wins`.
pub proof fn lemma_last_wins_distinct(fs: Seq<(Seq<char>, Json)>)
    requires
        forall|i: int, j: int| 0 <= i < j < fs.len() ==> (#[trigger] fs[i]).0 != (#[trigger] fs[j]).0,
    ensures
        last_wins(fs) == fs,
    decreases fs.len(),
{
    if fs.len() > 0 {
        assert forall|i: int, j: int| 0 <= i < j < fs.drop_first().len() implies (
        #[trigger] fs.drop_first()[i]).0 != (#[trigger] fs.drop_first()[j]).0 by {
            assert(fs.drop_first()[i] == fs[i + 1]);
            assert(fs.drop_first()[j] == fs[j + 1]);
        }
        lemma_last_wins_distinct(fs.drop_first());
        assert(!key_later(fs, 0, fs[0].0)) by {
            if key_later(fs, 0, fs[0].0) {
                let j = choose|j: int| 0 < j < fs.len() && (#[trigger] fs[j]).0 == fs[0].0;
                assert(fs[0].0 != fs[j].0);
            }
        }
        assert(seq![fs[0]] + fs.drop_first() =~= fs);
    }
}

/// An uppercase hexadecimal digit character for `d < 16`.
pub open spec fn upper_hex_digit_char(d: nat) -> char {
    if d < 10 {
        (48 + d) as char
    } else {
        (55 + d) as char
    }
}

/// Whether `h` is the four hexadecimal digits of `v`, most significant first, each in
/// either case.
pub open spec fn is_hex4_of(h: Seq<char>, v: nat) -> bool {
    &&& h.len() == 4
    &&& forall|k: int|
        0 <= k < 4 ==> {
            let d = (v / (if k == 0 { 4096nat } else if k == 1 { 256nat } else if k == 2 { 16nat } else { 1nat })) % 16;
            #[trigger] h[k] == text::hex_digit_char(d) || h[k] == upper_hex_digit_char(d)
        }
}

proof fn lemma_hex_digit_either(d: nat)
    requires
        d < 16,
    ensures
        hex_digit_value(text::hex_digit_char(d)) == Some(d),
        hex_digit_value(upper_hex_digit_char(d)) == Some(d),
{
}

/// A `\u` escape names the character with that code: for every character of the
/// Basic Multilingual Plane (which holds no surrogate, as no character is one),
/// `\u` and its four hexadecimal digits, in either case, decode to that character
/// and nothing else.
pub proof fn lemma_unicode_escape_decodes(c: char, h: Seq<char>, rest: Seq<char>)
    requires
        (c as nat) < 0x10000,
        is_hex4_of(h, c as nat),
    ensures
        string_body(seq!['\\', 'u'] + h + rest) == prepend(seq![c], 6, string_body(rest)),
{
    let v = c as nat;
    let cs = seq!['\\', 'u'] + h + rest;
    let d0 = (v / 4096) % 16;
    let d1 = (v / 256) % 16;
    let d2 = (v / 16) % 16;
    let d3 = v % 16;
    assert(h[0] == text::hex_digit_char(d0) || h[0] == upper_hex_digit_char(d0));
    assert(h[1] == text::hex_digit_char(d1) || h[1] == upper_hex_digit_char(d1));
    assert(h[2] == text::hex_digit_char(d2) || h[2] == upper_hex_digit_char(d2));
    assert(h[3] == text::hex_digit_char(d3 / 1 % 16) || h[3] == upper_hex_digit_char(d3 / 1 % 16));
    lemma_hex_digit_either(d0);
    lemma_hex_digit_either(d1);
    lemma_hex_digit_either(d2);
    lemma_hex_digit_either(d3);
    assert(cs.subrange(2, 6) =~= h);
    assert(h[0] != '+');
    let h3 = h.drop_last();
    let h2 = h3.drop_last();
    let h1 = h2.drop_last();
    assert(h1.drop_last().len() == 0);
    assert(hex_digits_value(h1.drop_last()) == Some(0nat));
    assert(h1.last() == h[0] && h2.last() == h[1] && h3.last() == h[2] && h.last() == h[3]);
    assert(hex_digits_value(h1) == Some(d0));
    assert(hex_digits_value(h2) == Some(d0 * 16 + d1));
    assert(hex_digits_value(h3) == Some((d0 * 16 + d1) * 16 + d2));
    assert(hex_digits_value(h) == Some(((d0 * 16 + d1) * 16 + d2) * 16 + d3));
    assert(((d0 * 16 + d1) * 16 + d2) * 16 + d3 == v) by (nonlinear_arith)
        requires
            v < 0x10000,
            d0 == (v / 4096) % 16,
            d1 == (v / 256) % 16,
            d2 == (v / 16) % 16,
            d3 == v % 16,
    ;
    assert(hex4_value(cs.subrange(2, 6)) == Some(v));
    assert(!(0xD800 <= v <= 0xDFFF));
    assert(vstd::utf8::is_scalar(v as u32));
    assert((v as char) == c);
    assert(cs.skip(6) =~= rest);
}

} // verus!
