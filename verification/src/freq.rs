//! The rules of `ush freq`: grouping results by a key, ordering the groups, and
//! rendering them as JSON lines or as a table.
//!
//! Reading the results and computing each group's share of the total, a
//! percentage with two decimals, happen around these functions.
use vstd::prelude::*;
use crate::numeral;
use crate::text::{self, chars_of, push_char, push_decimal, push_hex_padded, push_repeat, push_signed, push_str, str_eq, string_from};
use crate::time::{self, format_duration, Duration};

verus! {

/// The targets whose results share one value of the key.
pub struct Group {
    pub value: String,
    pub targets: Vec<String>,
}

/// The targets, in input order, of the entries whose key is `key`.
pub open spec fn targets_for(entries: Seq<(Seq<char>, Seq<char>)>, key: Seq<char>) -> Seq<Seq<char>>
    decreases entries.len(),
{
    if entries.len() == 0 {
        seq![]
    } else {
        let rest = targets_for(entries.drop_last(), key);
        if entries.last().0 == key {
            rest.push(entries.last().1)
        } else {
            rest
        }
    }
}

/// The keys of the entries, each once.
pub open spec fn keys_of(entries: Seq<(Seq<char>, Seq<char>)>) -> Set<Seq<char>> {
    Set::new(|k: Seq<char>| exists|i: int| 0 <= i < entries.len() && (#[trigger] entries[i]).0 == k)
}

/// The views of (key, target) pairs.
pub open spec fn entry_views(entries: Seq<(String, String)>) -> Seq<(Seq<char>, Seq<char>)> {
    Seq::new(entries.len(), |i: int| (entries[i].0@, entries[i].1@))
}

/// The views of the targets of a group.
pub open spec fn group_targets_view(g: Group) -> Seq<Seq<char>> {
    Seq::new(g.targets@.len(), |i: int| g.targets@[i]@)
}

/// Whether `groups` holds one group per key of `entries`, each with the targets of
/// that key in input order.
pub open spec fn groups_match(groups: Seq<Group>, entries: Seq<(Seq<char>, Seq<char>)>) -> bool {
    &&& forall|i: int, j: int| 0 <= i < j < groups.len() ==> (#[trigger] groups[i]).value@ != (
    #[trigger] groups[j]).value@
    &&& forall|i: int| 0 <= i < groups.len() ==> keys_of(entries).contains((#[trigger] groups[i]).value@)
    &&& forall|k: Seq<char>| keys_of(entries).contains(k) ==> exists|i: int| 0 <= i < groups.len() && (#[trigger] groups[i]).value@ == k
    &&& forall|i: int| 0 <= i < groups.len() ==> group_targets_view(#[trigger] groups[i]) == targets_for(entries, groups[i].value@)
}

/// The position of the first entry whose key is `k`.
pub open spec fn first_key_index(entries: Seq<(Seq<char>, Seq<char>)>, k: Seq<char>) -> nat
    decreases entries.len(),
{
    if entries.len() == 0 {
        0
    } else if keys_of(entries.drop_last()).contains(k) {
        first_key_index(entries.drop_last(), k)
    } else {
        (entries.len() - 1) as nat
    }
}

/// Whether the groups come in the order in which their keys first appear.
pub open spec fn in_first_appearance_order(groups: Seq<Group>, entries: Seq<(Seq<char>, Seq<char>)>) -> bool {
    forall|i: int, j: int|
        0 <= i < j < groups.len() ==> first_key_index(entries, (#[trigger] groups[i]).value@) < first_key_index(
            entries,
            (#[trigger] groups[j]).value@,
        )
}

proof fn lemma_first_key_index_bound(entries: Seq<(Seq<char>, Seq<char>)>, k: Seq<char>)
    requires
        keys_of(entries).contains(k),
    ensures
        first_key_index(entries, k) < entries.len(),
    decreases entries.len(),
{
    if keys_of(entries.drop_last()).contains(k) {
        lemma_first_key_index_bound(entries.drop_last(), k);
    }
}

proof fn lemma_targets_for_absent(entries: Seq<(Seq<char>, Seq<char>)>, key: Seq<char>)
    requires
        !keys_of(entries).contains(key),
    ensures
        targets_for(entries, key) == Seq::<Seq<char>>::empty(),
    decreases entries.len(),
{
    if entries.len() > 0 {
        assert(!keys_of(entries.drop_last()).contains(key)) by {
            if keys_of(entries.drop_last()).contains(key) {
                let i = choose|i: int| 0 <= i < entries.drop_last().len() && (#[trigger] entries.drop_last()[i]).0 == key;
                assert(entries[i].0 == key);
            }
        }
        lemma_targets_for_absent(entries.drop_last(), key);
        assert(entries[entries.len() - 1].0 != key);
    }
}

/// The index of the group whose value is `key`, if any.
fn find_group(groups: &Vec<Group>, key: &str) -> (r: Option<usize>)
    ensures
        r matches Some(g) ==> g < groups@.len() && groups@[g as int].value@ == key@,
        r is None ==> forall|i: int| 0 <= i < groups@.len() ==> (#[trigger] groups@[i]).value@ != key@,
{
    let mut g: usize = 0;
    while g < groups.len()
        invariant
            g <= groups@.len(),
            forall|i: int| 0 <= i < g ==> (#[trigger] groups@[i]).value@ != key@,
        decreases groups.len() - g,
    {
        if str_eq(groups[g].value.as_str(), key) {
            return Some(g);
        }
        g = g + 1;
    }
    None
}

/// Groups (key, target) pairs by key: one group per distinct key, in the order in
/// which the keys first appear, each holding its targets in input order.
pub fn group_targets(entries: &[(String, String)]) -> (groups: Vec<Group>)
    ensures
        groups_match(groups@, entry_views(entries@)),
        in_first_appearance_order(groups@, entry_views(entries@)),
{
    let mut groups: Vec<Group> = Vec::new();
    let mut n: usize = 0;
    while n < entries.len()
        invariant
            n <= entries@.len(),
            groups_match(groups@, entry_views(entries@).take(n as int)),
            in_first_appearance_order(groups@, entry_views(entries@).take(n as int)),
        decreases entries.len() - n,
    {
        let ghost es = entry_views(entries@).take(n as int);
        let ghost es1 = entry_views(entries@).take(n + 1);
        assert(es1.drop_last() == es);
        assert(es1.last() == (entries@[n as int].0@, entries@[n as int].1@));
        let key = entries[n].0.as_str();
        let target = &entries[n].1;
        let found = find_group(&groups, key);
        assert(keys_of(es1) =~= keys_of(es).insert(key@)) by {
            assert forall|k: Seq<char>| keys_of(es1).contains(k) <==> keys_of(es).contains(k) || k == key@ by {
                if keys_of(es1).contains(k) {
                    let i = choose|i: int| 0 <= i < es1.len() && (#[trigger] es1[i]).0 == k;
                    if i < n {
                        assert(es[i] == es1[i]);
                    }
                }
                if keys_of(es).contains(k) {
                    let i = choose|i: int| 0 <= i < es.len() && (#[trigger] es[i]).0 == k;
                    assert(es1[i] == es[i]);
                }
                if k == key@ {
                    assert(es1[n as int].0 == k);
                }
            }
        }
        if let Some(g) = found {
            let ghost old_groups = groups@;
            let mut grp = groups.remove(g);
            grp.targets.push(target.clone());
            groups.insert(g, grp);
            proof {
                assert forall|i: int| 0 <= i < groups@.len() implies group_targets_view(
                    #[trigger] groups@[i],
                ) == targets_for(es1, groups@[i].value@) by {
                    if i == g {
                        assert(group_targets_view(groups@[i]) =~= group_targets_view(old_groups[i]).push(target@));
                    } else {
                        assert(groups@[i] == old_groups[i]);
                    }
                }
                assert forall|k: Seq<char>| keys_of(es1).contains(k) implies exists|i: int|
                    0 <= i < groups@.len() && (#[trigger] groups@[i]).value@ == k by {
                    if k == key@ {
                        assert(groups@[g as int].value@ == k);
                    } else {
                        let i = choose|i: int| 0 <= i < old_groups.len() && (#[trigger] old_groups[i]).value@ == k;
                        assert(groups@[i] == old_groups[i] || i == g);
                    }
                }
                assert forall|i: int, j: int| 0 <= i < j < groups@.len() implies (#[trigger] groups@[i]).value@ != (
                #[trigger] groups@[j]).value@ by {
                    assert(groups@[i].value == old_groups[i].value);
                    assert(groups@[j].value == old_groups[j].value);
                }
                assert forall|i: int| 0 <= i < groups@.len() implies keys_of(es1).contains((#[trigger] groups@[i]).value@) by {
                    assert(groups@[i].value == old_groups[i].value);
                }
                assert forall|i: int, j: int| 0 <= i < j < groups@.len() implies first_key_index(es1, (#[trigger] groups@[i]).value@)
                    < first_key_index(es1, (#[trigger] groups@[j]).value@) by {
                    assert(groups@[i].value == old_groups[i].value);
                    assert(groups@[j].value == old_groups[j].value);
                    assert(keys_of(es).contains(old_groups[i].value@));
                    assert(keys_of(es).contains(old_groups[j].value@));
                }
            }
        } else {
            let ghost old_groups = groups@;
            let mut targets = Vec::new();
            targets.push(target.clone());
            groups.push(Group { value: string_from(key), targets });
            proof {
                assert(!keys_of(es).contains(key@)) by {
                    if keys_of(es).contains(key@) {
                        let i = choose|i: int| 0 <= i < old_groups.len() && (#[trigger] old_groups[i]).value@ == key@;
                    }
                }
                lemma_targets_for_absent(es, key@);
                assert(group_targets_view(groups@[old_groups.len() as int]) =~= seq![target@]);
                assert forall|i: int| 0 <= i < groups@.len() implies group_targets_view(
                    #[trigger] groups@[i],
                ) == targets_for(es1, groups@[i].value@) by {
                    if i < old_groups.len() {
                        assert(groups@[i] == old_groups[i]);
                    }
                }
                assert forall|k: Seq<char>| keys_of(es1).contains(k) implies exists|i: int|
                    0 <= i < groups@.len() && (#[trigger] groups@[i]).value@ == k by {
                    if k == key@ {
                        assert(groups@[old_groups.len() as int].value@ == k);
                    } else {
                        let i = choose|i: int| 0 <= i < old_groups.len() && (#[trigger] old_groups[i]).value@ == k;
                        assert(groups@[i] == old_groups[i]);
                    }
                }
                assert forall|i: int| 0 <= i < groups@.len() implies keys_of(es1).contains((#[trigger] groups@[i]).value@) by {
                    if i < old_groups.len() {
                        assert(groups@[i] == old_groups[i]);
                    }
                }
                assert(first_key_index(es1, key@) == n);
                assert forall|i: int, j: int| 0 <= i < j < groups@.len() implies first_key_index(es1, (#[trigger] groups@[i]).value@)
                    < first_key_index(es1, (#[trigger] groups@[j]).value@) by {
                    assert(groups@[i] == old_groups[i]);
                    assert(keys_of(es).contains(old_groups[i].value@));
                    lemma_first_key_index_bound(es, old_groups[i].value@);
                    if j < old_groups.len() {
                        assert(groups@[j] == old_groups[j]);
                        assert(keys_of(es).contains(old_groups[j].value@));
                    }
                }
            }
        }
        n = n + 1;
    }
    assert(entry_views(entries@).take(entries@.len() as int) == entry_views(entries@));
    groups
}

// ---------------------------------------------------------------------------
// Duration buckets.

/// The span that a duration of `d` nanoseconds is counted under for buckets of
/// `t` nanoseconds: the end of its bucket, reduced to 64 bits; `d` itself when
/// `t` is zero.
pub open spec fn bucket_nanos(d: nat, t: nat) -> nat {
    if t == 0 {
        d
    } else {
        ((d / t) * t + t) % 0x1_0000_0000_0000_0000
    }
}

/// A duration is counted under the end of its bucket: a multiple of the bucket size
/// after the duration and at most one bucket size after it, while that end fits in
/// 64 bits.
pub proof fn lemma_bucket_end(d: nat, t: nat)
    requires
        t > 0,
        d + t < 0x1_0000_0000_0000_0000,
    ensures
        bucket_nanos(d, t) % t == 0,
        d < bucket_nanos(d, t) <= d + t,
{
    let q = d / t;
    assert(q * t <= d && d < q * t + t) by (nonlinear_arith)
        requires
            t > 0,
            q == d / t,
    ;
    assert((q * t + t) % t == 0) by (nonlinear_arith)
        requires
            t > 0,
    ;
    assert((q * t + t) % 0x1_0000_0000_0000_0000 == q * t + t);
}

/// The key under which a duration is counted, for buckets of the given size.
pub fn duration_bucket(d: Duration, truncate: Duration) -> (s: String)
    ensures
        s@ == time::short_duration(bucket_nanos(d@, truncate@)),
        truncate@ > 0 && d@ + truncate@ < 0x1_0000_0000_0000_0000 ==> exists|e: nat|
            e % truncate@ == 0 && d@ < e <= d@ + truncate@ && s@ == #[trigger] time::short_duration(e),
        truncate@ == 0 ==> s@ == time::short_duration(d@),
{
    proof {
        if truncate@ > 0 && d@ + truncate@ < 0x1_0000_0000_0000_0000 {
            lemma_bucket_end(d@, truncate@);
        }
    }
    let t = truncate.as_nanos();
    if t == 0 {
        return format_duration(d);
    }
    let n = d.as_nanos();
    assert((n / t) * t <= n) by (nonlinear_arith)
        requires
            t > 0,
    ;
    let end = (n / t) * t + t;
    let low = (end % 0x1_0000_0000_0000_0000) as u64;
    format_duration(Duration::from_nanos(low))
}

// ---------------------------------------------------------------------------
// Ordering.

/// Whether `order` lists each index below `n` exactly once.
pub open spec fn is_permutation(order: Seq<usize>, n: nat) -> bool {
    &&& order.len() == n
    &&& forall|k: int| 0 <= k < order.len() ==> (#[trigger] order[k]) < n
    &&& forall|i: int, j: int| 0 <= i < j < order.len() ==> (#[trigger] order[i]) != (#[trigger] order[j])
}

/// Whether `order` visits the keys in nondecreasing order, keeping indices with
/// equal keys in increasing order.
pub open spec fn is_stable_sorted(order: Seq<usize>, keys: Seq<i128>) -> bool {
    forall|i: int, j: int| 0 <= i < j < order.len() ==> {
        let a = keys[#[trigger] order[i] as int];
        let b = keys[#[trigger] order[j] as int];
        a < b || (a == b && order[i] < order[j])
    }
}

/// The indices of `keys`, ordered by key, equal keys in index order.
pub fn sort_order(keys: &[i128]) -> (order: Vec<usize>)
    ensures
        is_permutation(order@, keys@.len()),
        is_stable_sorted(order@, keys@),
{
    let mut order: Vec<usize> = Vec::new();
    let mut i: usize = 0;
    while i < keys.len()
        invariant
            i <= keys@.len(),
            order@.len() == i,
            forall|k: int| 0 <= k < order@.len() ==> (#[trigger] order@[k]) < i,
            forall|a: int, b: int| 0 <= a < b < order@.len() ==> (#[trigger] order@[a]) != (#[trigger] order@[b]),
            is_stable_sorted(order@, keys@),
        decreases keys.len() - i,
    {
        let mut pos: usize = 0;
        while pos < order.len() && keys[order[pos]] <= keys[i]
            invariant
                pos <= order@.len(),
                i < keys@.len(),
                forall|k: int| 0 <= k < order@.len() ==> (#[trigger] order@[k]) < i,
                forall|k: int| 0 <= k < pos ==> keys@[(#[trigger] order@[k]) as int] <= keys@[i as int],
            decreases order.len() - pos,
        {
            pos = pos + 1;
        }
        let ghost before = order@;
        proof {
            assert forall|k: int| pos <= k < before.len() implies keys@[(#[trigger] before[k]) as int] > keys@[i as int] by {
                if pos < before.len() && k > pos {
                    let a = keys@[before[pos as int] as int];
                    let b = keys@[before[k] as int];
                    assert(a < b || (a == b && before[pos as int] < before[k]));
                }
            }
        }
        order.insert(pos, i);
        proof {
            let after = order@;
            assert(after =~= before.insert(pos as int, i));
            assert forall|a: int, b: int| 0 <= a < b < after.len() implies {
                let x = keys@[#[trigger] after[a] as int];
                let y = keys@[#[trigger] after[b] as int];
                x < y || (x == y && after[a] < after[b])
            } by {
                if b < pos {
                    assert(after[a] == before[a] && after[b] == before[b]);
                } else if a < pos && b == pos {
                    assert(after[a] == before[a]);
                } else if a < pos && b > pos {
                    assert(after[a] == before[a] && after[b] == before[b - 1]);
                } else if a == pos {
                    assert(after[b] == before[b - 1]);
                } else {
                    assert(after[a] == before[a - 1] && after[b] == before[b - 1]);
                }
            }
            assert forall|a: int, b: int| 0 <= a < b < after.len() implies (#[trigger] after[a]) != (#[trigger] after[b]) by {
                if b < pos {
                    assert(after[a] == before[a] && after[b] == before[b]);
                } else if a < pos && b == pos {
                    assert(after[a] == before[a]);
                } else if a < pos && b > pos {
                    assert(after[a] == before[a] && after[b] == before[b - 1]);
                } else if a == pos {
                    assert(after[b] == before[b - 1]);
                } else {
                    assert(after[a] == before[a - 1] && after[b] == before[b - 1]);
                }
            }
            assert forall|k: int| 0 <= k < after.len() implies (#[trigger] after[k]) < i + 1 by {
                if k < pos {
                    assert(after[k] == before[k]);
                } else if k > pos {
                    assert(after[k] == before[k - 1]);
                }
            }
        }
        i = i + 1;
    }
    order
}

// ---------------------------------------------------------------------------
// Rendering.

/// How a character of a value is shown in the table: quoted the way a shell
/// would read it back.
pub open spec fn quote_char(c: char) -> Seq<char> {
    if c == '"' {
        seq!['\\', '"']
    } else if c == '\\' {
        seq!['\\', '\\']
    } else if c == '\n' {
        seq!['\\', 'n']
    } else if c == '\r' {
        seq!['\\', 'r']
    } else if c == '\t' {
        seq!['\\', 't']
    } else if c == '\u{7}' {
        seq!['\\', 'a']
    } else if c == '\u{8}' {
        seq!['\\', 'b']
    } else if c == '\u{c}' {
        seq!['\\', 'f']
    } else if c == '\u{b}' {
        seq!['\\', 'v']
    } else if ('!' <= c && c <= '~') || c == ' ' {
        seq![c]
    } else if (c as u32) < 0x100 {
        seq!['\\', 'x'] + text::hex_padded(c as nat, 2)
    } else {
        seq!['\\', 'u'] + text::hex_padded(c as nat, 4)
    }
}

/// The quoted forms of every character of `s`, in order.
pub open spec fn quote_body(s: Seq<char>) -> Seq<char>
    decreases s.len(),
{
    if s.len() == 0 {
        seq![]
    } else {
        quote_body(s.drop_last()) + quote_char(s.last())
    }
}

/// `s` in double quotes with its special characters escaped.
pub open spec fn shell_quoted(s: Seq<char>) -> Seq<char> {
    seq!['"'] + quote_body(s) + seq!['"']
}

fn push_quoted(out: &mut String, c: char)
    ensures
        final(out)@ == old(out)@ + quote_char(c),
{
    if c == '"' {
        push_char(out, '\\');
        push_char(out, '"');
    } else if c == '\\' {
        push_char(out, '\\');
        push_char(out, '\\');
    } else if c == '\n' {
        push_char(out, '\\');
        push_char(out, 'n');
    } else if c == '\r' {
        push_char(out, '\\');
        push_char(out, 'r');
    } else if c == '\t' {
        push_char(out, '\\');
        push_char(out, 't');
    } else if c == '\u{7}' {
        push_char(out, '\\');
        push_char(out, 'a');
    } else if c == '\u{8}' {
        push_char(out, '\\');
        push_char(out, 'b');
    } else if c == '\u{c}' {
        push_char(out, '\\');
        push_char(out, 'f');
    } else if c == '\u{b}' {
        push_char(out, '\\');
        push_char(out, 'v');
    } else if ('!' <= c && c <= '~') || c == ' ' {
        push_char(out, c);
    } else if (c as u32) < 0x100 {
        push_char(out, '\\');
        push_char(out, 'x');
        push_hex_padded(out, c as u32, 2);
    } else {
        push_char(out, '\\');
        push_char(out, 'u');
        push_hex_padded(out, c as u32, 4);
    }
    assert(out@ =~= old(out)@ + quote_char(c));
}

/// Quotes and escapes a string for display, the way a shell would quote it.
pub fn shell_quote(s: &str) -> (r: String)
    ensures
        r@ == shell_quoted(s@),
{
    let cs = chars_of(s);
    let mut out = String::new();
    push_char(&mut out, '"');
    let mut i: usize = 0;
    while i < cs.len()
        invariant
            i <= cs.len(),
            out@ == seq!['"'] + quote_body(cs@.take(i as int)),
        decreases cs.len() - i,
    {
        push_quoted(&mut out, cs[i]);
        assert(cs@.take(i + 1).drop_last() == cs@.take(i as int));
        i = i + 1;
    }
    push_char(&mut out, '"');
    assert(cs@.take(cs.len() as int) == cs@);
    assert(out@ =~= shell_quoted(s@));
    out
}

/// The longest a value is shown in the table, in bytes of UTF-8, before it is cut.
pub open spec fn display_limit() -> nat {
    50
}

/// What the table shows of a value: the value itself when its UTF-8 encoding fits
/// in 50 bytes, else its first 50 bytes followed by `[...]`.
pub open spec fn display_text(v: Seq<char>) -> Seq<char> {
    let bytes = vstd::utf8::encode_utf8(v);
    if bytes.len() <= display_limit() {
        v
    } else {
        vstd::utf8::decode_utf8(bytes.take(display_limit() as int)) + "[...]"@
    }
}

/// Whether a value can be shown: a value longer than the limit must have a
/// character boundary at the limit, where std's `String::truncate` cuts it.
pub open spec fn displayable(v: Seq<char>) -> bool {
    let bytes = vstd::utf8::encode_utf8(v);
    bytes.len() <= display_limit() || vstd::utf8::is_char_boundary(bytes, display_limit() as int)
}

/// A value as the table shows it: cut to 50 bytes when longer, then quoted.
pub fn display_value(value: &str) -> (r: String)
    requires
        displayable(value@),
    ensures
        r@ == shell_quoted(display_text(value@)),
{
    assert(vstd::string::StringSliceAdditionalSpecFns::spec_bytes(value) == vstd::utf8::encode_utf8(value@));
    let bytes = value.as_bytes();
    if bytes.len() <= 50 {
        return shell_quote(value);
    }
    let (head, _) = value.split_at(50);
    proof {
        vstd::utf8::encode_utf8_decode_utf8(head@);
    }
    let mut cut = String::new();
    push_str(&mut cut, head);
    push_str(&mut cut, "[...]");
    shell_quote(cut.as_str())
}

/// `s` padded with spaces on the right to at least `w` characters.
pub open spec fn pad_right(s: Seq<char>, w: nat) -> Seq<char> {
    if s.len() >= w {
        s
    } else {
        s + text::repeat(' ', (w - s.len()) as nat)
    }
}

fn push_padded(out: &mut String, s: &str, w: usize)
    ensures
        final(out)@ == old(out)@ + pad_right(s@, w as nat),
{
    let cs = chars_of(s);
    push_str(out, s);
    if cs.len() < w {
        push_repeat(out, ' ', w - cs.len());
    }
    assert(out@ =~= old(out)@ + pad_right(s@, w as nat));
}

/// The header line of the table.
pub open spec fn wide_header() -> Seq<char> {
    pad_right("count"@, 8) + " "@ + pad_right("targets"@, 8) + " "@ + pad_right("freq %"@, 8)
        + " value\n"@
}

/// The header line of the table.
pub fn encode_wide_header() -> (s: String)
    ensures
        s@ == wide_header(),
{
    let mut out = String::new();
    push_padded(&mut out, "count", 8);
    push_str(&mut out, " ");
    push_padded(&mut out, "targets", 8);
    push_str(&mut out, " ");
    push_padded(&mut out, "freq %", 8);
    push_str(&mut out, " value\n");
    out
}

/// The table line for the group at `index` (counting from zero): its rank, its
/// number of targets, its share as rendered by the caller, and its quoted value.
pub open spec fn wide_row(index: nat, targets: nat, freq: Seq<char>, value: Seq<char>) -> Seq<char> {
    pad_right(text::decimal(index + 1), 8) + " "@ + pad_right(text::decimal(targets), 8) + " "@
        + freq + "   "@ + shell_quoted(display_text(value)) + "\n"@
}

/// The table line for a group; `freq` is its share, already rendered.
pub fn encode_wide_row(index: usize, targets: usize, freq: &str, value: &str) -> (s: String)
    requires
        index < usize::MAX,
        displayable(value@),
    ensures
        s@ == wide_row(index as nat, targets as nat, freq@, value@),
{
    let mut rank = String::new();
    push_decimal(&mut rank, (index + 1) as u128);
    let mut count = String::new();
    push_decimal(&mut count, targets as u128);
    let mut out = String::new();
    push_padded(&mut out, rank.as_str(), 8);
    push_str(&mut out, " ");
    push_padded(&mut out, count.as_str(), 8);
    push_str(&mut out, " ");
    push_str(&mut out, freq);
    push_str(&mut out, "   ");
    push_str(&mut out, display_value(value).as_str());
    push_str(&mut out, "\n");
    assert(rank@ =~= text::decimal(index as nat + 1));
    assert(count@ =~= text::decimal(targets as nat));
    out
}

/// How serde_json writes one character of a string: `"` and `\` after a
/// backslash; backspace, tab, newline, form feed and carriage return as `\b`,
/// `\t`, `\n`, `\f`, `\r`; other control characters as `\u00xx` in lowercase
/// hexadecimal; everything else as itself.
pub open spec fn serde_escape_char(c: char) -> Seq<char> {
    if c == '"' {
        seq!['\\', '"']
    } else if c == '\\' {
        seq!['\\', '\\']
    } else if c == '\u{8}' {
        seq!['\\', 'b']
    } else if c == '\t' {
        seq!['\\', 't']
    } else if c == '\n' {
        seq!['\\', 'n']
    } else if c == '\u{c}' {
        seq!['\\', 'f']
    } else if c == '\r' {
        seq!['\\', 'r']
    } else if (c as u32) < 0x20 {
        seq!['\\', 'u', '0', '0', text::hex_digit_char((c as nat) / 16), text::hex_digit_char((c as nat) % 16)]
    } else {
        seq![c]
    }
}

/// The JSON text that serde_json writes for a string: the escaped characters in quotes.
pub open spec fn serde_json_quoted(s: Seq<char>) -> Seq<char> {
    seq!['"'] + s.map_values(|c: char| serde_escape_char(c)).flatten() + seq!['"']
}

/// serde_json's `to_string` on a string. Its serializer writes the string in
/// quotes with the escapes of `serde_escape_char` (the table in its `ser.rs`), and
/// writing into the `Vec` that `to_string` uses cannot fail, so the text is always
/// produced.
#[verifier::external_body]
fn json_text(s: &String) -> (r: String)
    ensures
        r@ == serde_json_quoted(s@),
{
    serde_json::to_string(s).unwrap_or_default()
}

/// The JSON texts of the targets, separated by commas.
pub open spec fn joined_json(ts: Seq<Seq<char>>) -> Seq<char>
    decreases ts.len(),
{
    if ts.len() == 0 {
        seq![]
    } else if ts.len() == 1 {
        serde_json_quoted(ts[0])
    } else {
        joined_json(ts.drop_last()) + ","@ + serde_json_quoted(ts.last())
    }
}

/// The JSON line for a group: its share as rendered by the caller, its value and
/// its targets.
pub open spec fn json_line(freq: Seq<char>, value: Seq<char>, targets: Seq<Seq<char>>) -> Seq<char> {
    "{\"freq\":"@ + freq + ",\"value\":"@ + serde_json_quoted(value) + ",\"targets\":["@ + joined_json(
        targets,
    ) + "]}\n"@
}

fn push_json(out: &mut String, s: &String)
    ensures
        final(out)@ == old(out)@ + serde_json_quoted(s@),
{
    let t = json_text(s);
    push_str(out, t.as_str());
}

/// The JSON line for a group; `freq` is its share, already rendered.
pub fn encode_json_line(freq: &str, value: &String, targets: &[String]) -> (s: String)
    ensures
        s@ == json_line(freq@, value@, Seq::new(targets@.len(), |i: int| targets@[i]@)),
{
    let ghost ts = Seq::new(targets@.len(), |i: int| targets@[i]@);
    let mut out = String::new();
    push_str(&mut out, "{\"freq\":");
    push_str(&mut out, freq);
    push_str(&mut out, ",\"value\":");
    push_json(&mut out, value);
    push_str(&mut out, ",\"targets\":[");
    let ghost head = out@;
    let mut i: usize = 0;
    while i < targets.len()
        invariant
            i <= targets@.len(),
            ts == Seq::new(targets@.len(), |i: int| targets@[i]@),
            out@ == head + joined_json(ts.take(i as int)),
        decreases targets.len() - i,
    {
        if i > 0 {
            push_str(&mut out, ",");
        }
        push_json(&mut out, &targets[i]);
        proof {
            let t1 = ts.take(i + 1);
            assert(t1.drop_last() == ts.take(i as int));
            assert(t1.last() == targets@[i as int]@);
            if i == 0 {
                assert(t1.len() == 1);
                assert(joined_json(ts.take(0)) == Seq::<char>::empty());
            }
        }
        i = i + 1;
    }
    push_str(&mut out, "]}\n");
    assert(ts.take(targets@.len() as int) == ts);
    assert(out@ =~= json_line(freq@, value@, ts));
    out
}

/// The key text of an exit status.
pub fn status_text(status: i32) -> (s: String)
    ensures
        s@ == text::signed_decimal(status as int),
{
    let mut s = String::new();
    push_signed(&mut s, status as i64);
    s
}

/// The number by which an exit status key is ordered: the key read as an `i32`,
/// 0 when it does not read as one.
pub fn status_sort_key(value: &str) -> (k: i32)
    ensures
        k == match numeral::i32_numeral(value@) {
            Some(v) => v,
            None => 0,
        },
{
    match numeral::parse_i32(value) {
        Some(v) => v,
        None => 0,
    }
}

} // verus!
