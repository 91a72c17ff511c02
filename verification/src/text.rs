//! Character and string helpers shared by the formatting and parsing code:
//! decimal and hexadecimal rendering, zero padding, and Unicode whitespace.
use vstd::prelude::*;

verus! {

/// Appends one character to a `String` (std `String::push`).
#[verifier::external_body]
pub(crate) fn push_char(s: &mut String, c: char)
    ensures
        final(s)@ == old(s)@.push(c),
{
    s.push(c);
}

/// The characters of `s`, in order.
pub fn chars_of(s: &str) -> (v: Vec<char>)
    ensures
        v@ == s@,
{
    let mut v: Vec<char> = Vec::new();
    for c in it: s.chars()
        invariant
            v@ == it.seq().take(it.index() as int),
    {
        v.push(c);
    }
    v
}

/// Appends every character of `cs` to `s`.
pub fn push_chars(s: &mut String, cs: &[char])
    ensures
        final(s)@ == old(s)@ + cs@,
{
    let ghost start = s@;
    let mut i: usize = 0;
    while i < cs.len()
        invariant
            i <= cs.len(),
            s@ == start + cs@.take(i as int),
        decreases cs.len() - i,
    {
        push_char(s, cs[i]);
        i = i + 1;
        assert(cs@.take(i as int) == cs@.take(i - 1).push(cs@[i - 1]));
    }
    assert(cs@.take(cs.len() as int) == cs@);
}

/// Appends the characters `cs[from..to]` to `s`.
pub fn push_char_range(s: &mut String, cs: &[char], from: usize, to: usize)
    requires
        from <= to <= cs.len(),
    ensures
        final(s)@ == old(s)@ + cs@.subrange(from as int, to as int),
{
    let ghost start = s@;
    let mut i: usize = from;
    while i < to
        invariant
            from <= i <= to <= cs.len(),
            s@ == start + cs@.subrange(from as int, i as int),
        decreases to - i,
    {
        push_char(s, cs[i]);
        i = i + 1;
        assert(cs@.subrange(from as int, i as int) == cs@.subrange(from as int, i - 1).push(
            cs@[i - 1],
        ));
    }
}

/// A `String` holding exactly the characters `cs[from..to]`.
pub fn string_of_range(cs: &[char], from: usize, to: usize) -> (s: String)
    requires
        from <= to <= cs.len(),
    ensures
        s@ == cs@.subrange(from as int, to as int),
{
    let mut s = String::new();
    push_char_range(&mut s, cs, from, to);
    s
}

/// A vector holding exactly the characters `cs[from..to]`.
pub fn chars_range_vec(cs: &[char], from: usize, to: usize) -> (v: Vec<char>)
    requires
        from <= to <= cs.len(),
    ensures
        v@ == cs@.subrange(from as int, to as int),
{
    let mut v: Vec<char> = Vec::new();
    let mut i: usize = from;
    while i < to
        invariant
            from <= i <= to <= cs.len(),
            v@ == cs@.subrange(from as int, i as int),
        decreases to - i,
    {
        v.push(cs[i]);
        i = i + 1;
        assert(v@ =~= cs@.subrange(from as int, i as int));
    }
    v
}

/// Appends the characters of `t` to `s`.
pub fn push_str(s: &mut String, t: &str)
    ensures
        final(s)@ == old(s)@ + t@,
{
    let cs = chars_of(t);
    push_chars(s, cs.as_slice());
}

/// A `String` holding exactly the characters of `t`.
pub fn string_from(t: &str) -> (s: String)
    ensures
        s@ == t@,
{
    let mut s = String::new();
    push_str(&mut s, t);
    s
}

/// Whether two strings hold the same characters.
pub fn chars_eq(a: &[char], b: &[char]) -> (r: bool)
    ensures
        r == (a@ == b@),
{
    if a.len() != b.len() {
        return false;
    }
    let mut i: usize = 0;
    while i < a.len()
        invariant
            a.len() == b.len(),
            i <= a.len(),
            forall|k: int| 0 <= k < i ==> a@[k] == b@[k],
        decreases a.len() - i,
    {
        if a[i] != b[i] {
            return false;
        }
        i = i + 1;
    }
    assert(a@ =~= b@);
    true
}

/// Whether `s` and `t` hold the same characters.
pub fn str_eq(s: &str, t: &str) -> (r: bool)
    ensures
        r == (s@ == t@),
{
    let a = chars_of(s);
    let b = chars_of(t);
    chars_eq(a.as_slice(), b.as_slice())
}

/// Whether `s` begins with the characters of `p` (std `str::starts_with`).
pub fn starts_with(s: &str, p: &str) -> (r: bool)
    ensures
        r == p@.is_prefix_of(s@),
{
    let a = chars_of(s);
    let b = chars_of(p);
    if b.len() > a.len() {
        return false;
    }
    let mut i: usize = 0;
    while i < b.len()
        invariant
            a@ == s@,
            b@ == p@,
            b.len() <= a.len(),
            i <= b.len(),
            forall|k: int| 0 <= k < i ==> a@[k] == b@[k],
        decreases b.len() - i,
    {
        if a[i] != b[i] {
            assert(!p@.is_prefix_of(s@)) by {
                assert(s@.subrange(0, p@.len() as int)[i as int] != p@[i as int]);
            }
            return false;
        }
        i = i + 1;
    }
    assert(a@.subrange(0, b@.len() as int) =~= b@);
    true
}

/// `c` with an ASCII capital lowered.
pub fn lower_char(c: char) -> (r: char)
    ensures
        r == (if 'A' <= c <= 'Z' {
            ((c as u32) + 32) as char
        } else {
            c
        }),
{
    if c >= 'A' && c <= 'Z' {
        ((c as u32) + 32) as u8 as char
    } else {
        c
    }
}

/// Whether `cs[from..to]`, with ASCII capitals lowered, is `lit`.
pub fn lower_eq(cs: &[char], from: usize, to: usize, lit: &str) -> (r: bool)
    requires
        from <= to <= cs.len(),
    ensures
        r == (ascii_lowercase(cs@.subrange(from as int, to as int)) == lit@),
{
    let l = chars_of(lit);
    let ghost low = ascii_lowercase(cs@.subrange(from as int, to as int));
    if l.len() != to - from {
        return false;
    }
    let mut i: usize = 0;
    while i < l.len()
        invariant
            l@ == lit@,
            l.len() == to - from,
            from <= to <= cs.len(),
            low == ascii_lowercase(cs@.subrange(from as int, to as int)),
            i <= l.len(),
            forall|k: int| 0 <= k < i ==> low[k] == l@[k],
        decreases l.len() - i,
    {
        let c = lower_char(cs[from + i]);
        assert(c == low[i as int]);
        if c != l[i] {
            return false;
        }
        i = i + 1;
    }
    assert(low =~= l@);
    true
}

/// The bounds of `cs` without its leading and trailing whitespace (std `str::trim`).
pub fn trim_bounds(cs: &[char]) -> (r: (usize, usize))
    ensures
        r.0 <= r.1 <= cs.len(),
        cs@.subrange(r.0 as int, r.1 as int) == trim(cs@),
{
    let mut start: usize = 0;
    let mut end: usize = cs.len();
    assert(cs@.skip(0) == cs@);
    while start < end && char_is_whitespace(cs[start])
        invariant
            start <= end == cs.len(),
            trim_start(cs@.skip(start as int)) == trim_start(cs@),
        decreases end - start,
    {
        assert(cs@.skip(start as int).drop_first() == cs@.skip(start + 1));
        start = start + 1;
    }
    assert(cs@.subrange(start as int, end as int) == trim_start(cs@));
    let ghost ts = cs@.subrange(start as int, end as int);
    while end > start && char_is_whitespace(cs[end - 1])
        invariant
            start <= end <= cs.len(),
            trim_end(cs@.subrange(start as int, end as int)) == trim_end(ts),
        decreases end - start,
    {
        assert(cs@.subrange(start as int, end as int).drop_last() == cs@.subrange(start as int, end - 1));
        end = end - 1;
    }
    (start, end)
}

/// The decimal digit character for `d < 10`.
pub open spec fn digit_char(d: nat) -> char {
    (48 + d) as char
}

/// The decimal representation of `n`, most significant digit first, no leading zeros.
pub open spec fn decimal(n: nat) -> Seq<char>
    decreases n,
{
    if n < 10 {
        seq![digit_char(n)]
    } else {
        decimal(n / 10).push(digit_char(n % 10))
    }
}

/// The decimal representation of a signed integer, with a leading `-` when negative.
pub open spec fn signed_decimal(i: int) -> Seq<char> {
    if i < 0 {
        seq!['-'] + decimal((-i) as nat)
    } else {
        decimal(i as nat)
    }
}

/// `n` in decimal, left-padded with `0` to at least `width` characters.
pub open spec fn zero_padded(n: nat, width: nat) -> Seq<char> {
    let d = decimal(n);
    if d.len() >= width {
        d
    } else {
        Seq::new((width - d.len()) as nat, |i: int| '0') + d
    }
}

/// Exactly `width` decimal digits of `n % 10^width`, most significant first.
pub open spec fn fixed_digits(n: nat, width: nat) -> Seq<char>
    decreases width,
{
    if width == 0 {
        seq![]
    } else {
        fixed_digits(n / 10, (width - 1) as nat).push(digit_char(n % 10))
    }
}

/// `s` without its trailing `'0'` characters.
pub open spec fn trim_trailing_zeros(s: Seq<char>) -> Seq<char>
    decreases s.len(),
{
    if s.len() > 0 && s.last() == '0' {
        trim_trailing_zeros(s.drop_last())
    } else {
        s
    }
}

/// The lowercase hexadecimal digit character for `d < 16`.
pub open spec fn hex_digit_char(d: nat) -> char {
    if d < 10 {
        (48 + d) as char
    } else {
        (87 + d) as char
    }
}

/// The lowercase hexadecimal representation of `n`, no leading zeros.
pub open spec fn hex(n: nat) -> Seq<char>
    decreases n,
{
    if n < 16 {
        seq![hex_digit_char(n)]
    } else {
        hex(n / 16).push(hex_digit_char(n % 16))
    }
}

/// `n` in lowercase hexadecimal, left-padded with `0` to at least `width` characters.
pub open spec fn hex_padded(n: nat, width: nat) -> Seq<char> {
    let d = hex(n);
    if d.len() >= width {
        d
    } else {
        Seq::new((width - d.len()) as nat, |i: int| '0') + d
    }
}

/// Unicode `White_Space`, the property that std's `char::is_whitespace` tests.
pub open spec fn is_whitespace(c: char) -> bool {
    let v = c as u32;
    ||| 0x09 <= v <= 0x0d
    ||| v == 0x20
    ||| v == 0x85
    ||| v == 0xa0
    ||| v == 0x1680
    ||| 0x2000 <= v <= 0x200a
    ||| v == 0x2028
    ||| v == 0x2029
    ||| v == 0x202f
    ||| v == 0x205f
    ||| v == 0x3000
}

/// Whether `c` is Unicode whitespace.
pub fn char_is_whitespace(c: char) -> (r: bool)
    ensures
        r == is_whitespace(c),
{
    let v = c as u32;
    (0x09 <= v && v <= 0x0d) || v == 0x20 || v == 0x85 || v == 0xa0 || v == 0x1680 || (0x2000
        <= v && v <= 0x200a) || v == 0x2028 || v == 0x2029 || v == 0x202f || v == 0x205f || v
        == 0x3000
}

/// Whether `c` is an ASCII decimal digit.
pub open spec fn is_ascii_digit(c: char) -> bool {
    '0' <= c <= '9'
}

/// How many leading characters of `s` are ASCII digits.
pub open spec fn digit_run(s: Seq<char>) -> nat
    decreases s.len(),
{
    if s.len() > 0 && is_ascii_digit(s[0]) {
        1 + digit_run(s.drop_first())
    } else {
        0
    }
}

/// `s` with ASCII capitals lowered (std `str::to_ascii_lowercase`).
pub open spec fn ascii_lowercase(s: Seq<char>) -> Seq<char> {
    s.map_values(|c: char| if 'A' <= c <= 'Z' {
        ((c as u32) + 32) as char
    } else {
        c
    })
}

/// `s` without its leading whitespace (std `str::trim_start`).
pub open spec fn trim_start(s: Seq<char>) -> Seq<char>
    decreases s.len(),
{
    if s.len() > 0 && is_whitespace(s[0]) {
        trim_start(s.drop_first())
    } else {
        s
    }
}

/// `s` without its trailing whitespace (std `str::trim_end`).
pub open spec fn trim_end(s: Seq<char>) -> Seq<char>
    decreases s.len(),
{
    if s.len() > 0 && is_whitespace(s.last()) {
        trim_end(s.drop_last())
    } else {
        s
    }
}

/// `s` without leading or trailing whitespace (std `str::trim`).
pub open spec fn trim(s: Seq<char>) -> Seq<char> {
    trim_end(trim_start(s))
}

/// How many leading characters of `s` are whitespace.
pub open spec fn leading_whitespace(s: Seq<char>) -> nat
    decreases s.len(),
{
    if s.len() > 0 && is_whitespace(s[0]) {
        1 + leading_whitespace(s.drop_first())
    } else {
        0
    }
}

/// Trimming the start drops exactly the leading whitespace.
pub proof fn lemma_trim_start_skip(s: Seq<char>)
    ensures
        leading_whitespace(s) <= s.len(),
        trim_start(s) == s.skip(leading_whitespace(s) as int),
        forall|k: int| 0 <= k < leading_whitespace(s) ==> is_whitespace(#[trigger] s[k]),
        leading_whitespace(s) < s.len() ==> !is_whitespace(s[leading_whitespace(s) as int]),
    decreases s.len(),
{
    if s.len() > 0 && is_whitespace(s[0]) {
        lemma_trim_start_skip(s.drop_first());
        assert(s.drop_first().skip(leading_whitespace(s.drop_first()) as int) == s.skip(
            leading_whitespace(s) as int,
        ));
        assert forall|k: int| 0 <= k < leading_whitespace(s) implies is_whitespace(#[trigger] s[k]) by {
            if k > 0 {
                assert(s[k] == s.drop_first()[k - 1]);
            }
        }
    } else {
        assert(s.skip(0) == s);
    }
}

/// The index of the first character of `cs` at or after `from` that is not whitespace.
pub fn skip_whitespace(cs: &[char], from: usize) -> (i: usize)
    requires
        from <= cs.len(),
    ensures
        from <= i <= cs.len(),
        cs@.skip(i as int) == trim_start(cs@.skip(from as int)),
{
    let mut i = from;
    while i < cs.len() && char_is_whitespace(cs[i])
        invariant
            from <= i <= cs.len(),
            trim_start(cs@.skip(i as int)) == trim_start(cs@.skip(from as int)),
        decreases cs.len() - i,
    {
        assert(cs@.skip(i as int).drop_first() == cs@.skip(i + 1));
        i = i + 1;
    }
    i
}

/// The decimal digits of `n`, most significant first.
pub fn decimal_chars(n: u128) -> (v: Vec<char>)
    ensures
        v@ == decimal(n as nat),
    decreases n,
{
    let d = (n % 10) as u8;
    let c = (48u8 + d) as char;
    if n < 10 {
        let mut v = Vec::new();
        v.push(c);
        v
    } else {
        let mut v = decimal_chars(n / 10);
        v.push(c);
        v
    }
}

/// Appends the decimal digits of `n` to `s`.
pub fn push_decimal(s: &mut String, n: u128)
    ensures
        final(s)@ == old(s)@ + decimal(n as nat),
{
    let v = decimal_chars(n);
    push_chars(s, v.as_slice());
}

/// Appends a signed decimal rendering of `i` to `s`.
pub fn push_signed(s: &mut String, i: i64)
    ensures
        final(s)@ == old(s)@ + signed_decimal(i as int),
{
    if i < 0 {
        push_char(s, '-');
        let m: u128 = (0 - (i as i128)) as u128;
        push_decimal(s, m);
        assert(old(s)@.push('-') + decimal(m as nat) == old(s)@ + (seq!['-'] + decimal(
            m as nat,
        )));
    } else {
        push_decimal(s, i as u128);
    }
}

/// `k` copies of the character `c`.
pub open spec fn repeat(c: char, k: nat) -> Seq<char> {
    Seq::new(k, |i: int| c)
}

/// Appends `k` copies of `c` to `s`.
pub fn push_repeat(s: &mut String, c: char, k: usize)
    ensures
        final(s)@ == old(s)@ + repeat(c, k as nat),
{
    let ghost start = s@;
    let mut i: usize = 0;
    while i < k
        invariant
            i <= k,
            s@ == start + repeat(c, i as nat),
        decreases k - i,
    {
        push_char(s, c);
        i = i + 1;
        assert(repeat(c, i as nat) == repeat(c, (i - 1) as nat).push(c));
    }
}

/// Appends `n` in decimal, left-padded with `0` to at least `width` characters.
pub fn push_zero_padded(s: &mut String, n: u128, width: usize)
    ensures
        final(s)@ == old(s)@ + zero_padded(n as nat, width as nat),
{
    let d = decimal_chars(n);
    if d.len() < width {
        push_repeat(s, '0', width - d.len());
        assert(repeat('0', (width - d.len()) as nat) == Seq::new(
            (width - d@.len()) as nat,
            |i: int| '0',
        ));
    }
    let ghost mid = s@;
    push_chars(s, d.as_slice());
    assert(s@ == old(s)@ + zero_padded(n as nat, width as nat));
}

/// The lowercase hexadecimal digits of `n`, most significant first.
pub fn hex_chars(n: u32) -> (v: Vec<char>)
    ensures
        v@ == hex(n as nat),
    decreases n,
{
    let d = (n % 16) as u8;
    let c = if d < 10 {
        (48u8 + d) as char
    } else {
        (97u8 + (d - 10)) as char
    };
    if n < 16 {
        let mut v = Vec::new();
        v.push(c);
        v
    } else {
        let mut v = hex_chars(n / 16);
        v.push(c);
        v
    }
}

/// Appends `n` in lowercase hexadecimal, left-padded with `0` to at least `width` characters.
pub fn push_hex_padded(s: &mut String, n: u32, width: usize)
    ensures
        final(s)@ == old(s)@ + hex_padded(n as nat, width as nat),
{
    let d = hex_chars(n);
    if d.len() < width {
        push_repeat(s, '0', width - d.len());
    }
    push_chars(s, d.as_slice());
    assert(s@ == old(s)@ + hex_padded(n as nat, width as nat));
}

/// Appends exactly `width` decimal digits of `n % 10^width`.
pub fn push_fixed_digits(s: &mut String, n: u64, width: usize)
    ensures
        final(s)@ == old(s)@ + fixed_digits(n as nat, width as nat),
    decreases width,
{
    if width > 0 {
        push_fixed_digits(s, n / 10, width - 1);
        let d = (n % 10) as u8;
        push_char(s, (48u8 + d) as char);
        assert(fixed_digits(n as nat, width as nat) == fixed_digits(
            (n / 10) as nat,
            (width - 1) as nat,
        ).push(digit_char((n % 10) as nat)));
    }
}

/// `s` with every non-overlapping occurrence of `pat`, scanning from the left,
/// replaced by `with` (std `str::replace` for a non-empty pattern).
pub open spec fn replace_all(s: Seq<char>, pat: Seq<char>, with: Seq<char>) -> Seq<char>
    decreases s.len(),
{
    if s.len() == 0 {
        seq![]
    } else if 0 < pat.len() <= s.len() && s.take(pat.len() as int) == pat {
        with + replace_all(s.skip(pat.len() as int), pat, with)
    } else {
        seq![s[0]] + replace_all(s.skip(1), pat, with)
    }
}

/// Whether `pat` occurs in `cs` at index `at`.
pub fn matches_at(cs: &[char], at: usize, pat: &[char]) -> (r: bool)
    requires
        at <= cs.len(),
    ensures
        r == (pat.len() <= cs.len() - at && cs@.skip(at as int).take(pat.len() as int) == pat@),
{
    if pat.len() > cs.len() - at {
        return false;
    }
    let mut k: usize = 0;
    while k < pat.len()
        invariant
            k <= pat.len() <= cs.len() - at,
            forall|j: int| 0 <= j < k ==> cs@[at + j] == pat@[j],
        decreases pat.len() - k,
    {
        if cs[at + k] != pat[k] {
            assert(cs@.skip(at as int).take(pat.len() as int)[k as int] != pat@[k as int]);
            return false;
        }
        k = k + 1;
    }
    assert(cs@.skip(at as int).take(pat.len() as int) =~= pat@);
    true
}

/// `s` with every occurrence of the non-empty `pat` replaced by `with`.
pub fn replace(s: &str, pat: &str, with: &str) -> (r: String)
    requires
        pat@.len() > 0,
    ensures
        r@ == replace_all(s@, pat@, with@),
{
    let cs = chars_of(s);
    let ps = chars_of(pat);
    let ws = chars_of(with);
    let mut out = String::new();
    let mut i: usize = 0;
    assert(cs@.skip(0) == cs@);
    while i < cs.len()
        invariant
            i <= cs.len(),
            cs@ == s@,
            ps@ == pat@,
            ws@ == with@,
            ps@.len() > 0,
            replace_all(s@, pat@, with@) == out@ + replace_all(cs@.skip(i as int), pat@, with@),
        decreases cs.len() - i,
    {
        let ghost rest = cs@.skip(i as int);
        if matches_at(cs.as_slice(), i, ps.as_slice()) {
            push_chars(&mut out, ws.as_slice());
            assert(rest.skip(ps@.len() as int) == cs@.skip(i + ps@.len()));
            i = i + ps.len();
        } else {
            push_char(&mut out, cs[i]);
            assert(rest.skip(1) == cs@.skip(i + 1));
            assert(rest[0] == cs@[i as int]);
            i = i + 1;
        }
    }
    assert(cs@.skip(i as int) =~= Seq::<char>::empty());
    assert(out@ + Seq::<char>::empty() == out@);
    out
}

/// How many leading characters of `s` are not whitespace.
pub open spec fn word_run(s: Seq<char>) -> nat
    decreases s.len(),
{
    if s.len() > 0 && !is_whitespace(s[0]) {
        1 + word_run(s.drop_first())
    } else {
        0
    }
}

/// A word run is a run of non-whitespace characters, cut at the first whitespace.
pub proof fn lemma_word_run(s: Seq<char>)
    ensures
        word_run(s) <= s.len(),
        forall|k: int| 0 <= k < word_run(s) ==> !is_whitespace(#[trigger] s[k]),
        word_run(s) < s.len() ==> is_whitespace(s[word_run(s) as int]),
    decreases s.len(),
{
    if s.len() > 0 && !is_whitespace(s[0]) {
        lemma_word_run(s.drop_first());
        assert forall|k: int| 0 <= k < word_run(s) implies !is_whitespace(#[trigger] s[k]) by {
            if k > 0 {
                assert(s[k] == s.drop_first()[k - 1]);
            }
        }
    }
}

/// The whitespace-separated words of `s`, in order (std `str::split_whitespace`).
pub open spec fn words(s: Seq<char>) -> Seq<Seq<char>>
    decreases s.len(),
{
    if s.len() == 0 {
        seq![]
    } else if is_whitespace(s[0]) {
        words(s.skip(1))
    } else {
        let w = word_run(s);
        proof {
            lemma_word_run(s);
        }
        seq![s.take(w as int)] + words(s.skip(w as int))
    }
}

/// The whitespace-separated words of `s`, in order.
pub fn split_whitespace(s: &str) -> (r: Vec<String>)
    ensures
        r@.len() == words(s@).len(),
        forall|k: int| 0 <= k < r@.len() ==> (#[trigger] r@[k])@ == words(s@)[k],
{
    let cs = chars_of(s);
    let mut out: Vec<String> = Vec::new();
    let mut i: usize = 0;
    assert(cs@.skip(0) == cs@);
    while i < cs.len()
        invariant
            i <= cs.len(),
            cs@ == s@,
            words(s@) == Seq::new(out@.len(), |k: int| out@[k]@) + words(cs@.skip(i as int)),
        decreases cs.len() - i,
    {
        let ghost rest = cs@.skip(i as int);
        let ghost before = Seq::new(out@.len(), |k: int| out@[k]@);
        if char_is_whitespace(cs[i]) {
            assert(rest.skip(1) == cs@.skip(i + 1));
            i = i + 1;
        } else {
            let mut j = i;
            while j < cs.len() && !char_is_whitespace(cs[j])
                invariant
                    i <= j <= cs.len(),
                    word_run(rest) == (j - i) + word_run(cs@.skip(j as int)),
                decreases cs.len() - j,
            {
                assert(cs@.skip(j as int).drop_first() == cs@.skip(j + 1));
                j = j + 1;
            }
            proof {
                lemma_word_run(rest);
                assert(rest.take((j - i) as int) == cs@.subrange(i as int, j as int));
                assert(rest.skip((j - i) as int) == cs@.skip(j as int));
            }
            let w = string_of_range(cs.as_slice(), i, j);
            out.push(w);
            assert(Seq::new(out@.len(), |k: int| out@[k]@) =~= before.push(
                cs@.subrange(i as int, j as int),
            ));
            assert(before + words(rest) =~= Seq::new(out@.len(), |k: int| out@[k]@) + words(
                cs@.skip(j as int),
            ));
            i = j;
        }
    }
    assert(cs@.skip(i as int) =~= Seq::<char>::empty());
    assert(words(s@) =~= Seq::new(out@.len(), |k: int| out@[k]@));
    out
}

/// The index of the first occurrence of `c` in `s`, if any.
pub open spec fn first_index(s: Seq<char>, c: char) -> Option<nat>
    decreases s.len(),
{
    if s.len() == 0 {
        None
    } else if s[0] == c {
        Some(0)
    } else {
        match first_index(s.drop_first(), c) {
            Some(k) => Some(k + 1),
            None => None,
        }
    }
}

/// The index of the first occurrence of `c` in `cs` at or after `from`, if any.
pub fn find_char(cs: &[char], from: usize, c: char) -> (r: Option<usize>)
    requires
        from <= cs.len(),
    ensures
        match first_index(cs@.skip(from as int), c) {
            Some(k) => r == Some((from + k) as usize) && from + k < cs.len(),
            None => r is None,
        },
{
    let mut i = from;
    while i < cs.len()
        invariant
            from <= i <= cs.len(),
            first_index(cs@.skip(from as int), c) == match first_index(cs@.skip(i as int), c) {
                Some(k) => Some((k + (i - from)) as nat),
                None => None,
            },
        decreases cs.len() - i,
    {
        assert(cs@.skip(i as int)[0] == cs@[i as int]);
        if cs[i] == c {
            return Some(i);
        }
        assert(cs@.skip(i as int).drop_first() == cs@.skip(i + 1));
        i = i + 1;
    }
    None
}

} // verus!
