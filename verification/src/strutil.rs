//! A set of strings, kept in sorted order.
use vstd::prelude::*;
use crate::text::{chars_of, chars_eq, string_from};

verus! {

/// Lexicographic order on character sequences, by code point. For strings this is
/// the order of their UTF-8 bytes, the order std's `String::cmp` uses.
pub open spec fn str_lt(a: Seq<char>, b: Seq<char>) -> bool
    decreases a.len(),
{
    if a.len() == 0 {
        b.len() > 0
    } else if b.len() == 0 {
        false
    } else if a[0] < b[0] {
        true
    } else if a[0] > b[0] {
        false
    } else {
        str_lt(a.drop_first(), b.drop_first())
    }
}

/// No string comes before itself.
pub proof fn lemma_str_lt_irreflexive(a: Seq<char>)
    ensures
        !str_lt(a, a),
    decreases a.len(),
{
    if a.len() > 0 {
        lemma_str_lt_irreflexive(a.drop_first());
    }
}

/// The order is transitive.
pub proof fn lemma_str_lt_transitive(a: Seq<char>, b: Seq<char>, c: Seq<char>)
    requires
        str_lt(a, b),
        str_lt(b, c),
    ensures
        str_lt(a, c),
    decreases a.len(),
{
    if a.len() > 0 && b.len() > 0 && c.len() > 0 {
        if a[0] == b[0] && b[0] == c[0] {
            lemma_str_lt_transitive(a.drop_first(), b.drop_first(), c.drop_first());
        }
    }
}

/// Of two different strings, one comes before the other.
pub proof fn lemma_str_lt_total(a: Seq<char>, b: Seq<char>)
    ensures
        a == b || str_lt(a, b) || str_lt(b, a),
    decreases a.len(),
{
    if a.len() > 0 && b.len() > 0 {
        if a[0] == b[0] {
            lemma_str_lt_total(a.drop_first(), b.drop_first());
            if a.drop_first() == b.drop_first() {
                assert(a =~= seq![a[0]] + a.drop_first());
                assert(b =~= seq![b[0]] + b.drop_first());
            }
        } else {
            assert(a[0] != b[0]);
        }
    } else if a.len() == 0 && b.len() == 0 {
        assert(a =~= b);
    }
}

/// Of two strings, at most one comes before the other.
pub proof fn lemma_str_lt_asymmetric(a: Seq<char>, b: Seq<char>)
    requires
        str_lt(a, b),
    ensures
        !str_lt(b, a),
{
    if str_lt(b, a) {
        lemma_str_lt_transitive(a, b, a);
        lemma_str_lt_irreflexive(a);
    }
}

/// Whether `a` comes before `b` in code point order.
pub fn str_less(a: &[char], b: &[char]) -> (r: bool)
    ensures
        r == str_lt(a@, b@),
{
    let mut i: usize = 0;
    assert(a@.skip(0) == a@ && b@.skip(0) == b@);
    while i < a.len() && i < b.len() && a[i] == b[i]
        invariant
            i <= a.len(),
            i <= b.len(),
            str_lt(a@, b@) == str_lt(a@.skip(i as int), b@.skip(i as int)),
        decreases a.len() - i,
    {
        assert(a@.skip(i as int).drop_first() == a@.skip(i + 1));
        assert(b@.skip(i as int).drop_first() == b@.skip(i + 1));
        i = i + 1;
    }
    assert(a@.skip(i as int).len() == a.len() - i);
    if i == a.len() {
        i < b.len()
    } else if i == b.len() {
        false
    } else {
        assert(a@.skip(i as int)[0] == a@[i as int]);
        assert(b@.skip(i as int)[0] == b@[i as int]);
        a[i] < b[i]
    }
}

/// The character sequences of a run of strings.
pub open spec fn views(v: Seq<String>) -> Seq<Seq<char>> {
    v.map_values(|s: String| s@)
}

/// Whether a sequence of strings is in strictly increasing order.
pub open spec fn strictly_sorted(s: Seq<Seq<char>>) -> bool {
    forall|i: int, j: int| 0 <= i < j < s.len() ==> str_lt(#[trigger] s[i], #[trigger] s[j])
}

/// A set of strings.
#[derive(Debug)]
pub struct StringSet {
    items: Vec<String>,
}

impl View for StringSet {
    type V = Set<Seq<char>>;

    closed spec fn view(&self) -> Set<Seq<char>> {
        views(self.items@).to_set()
    }
}

impl StringSet {
    #[verifier::type_invariant]
    closed spec fn sorted(&self) -> bool {
        strictly_sorted(views(self.items@))
    }

    /// The members in increasing order.
    closed spec fn members(&self) -> Seq<Seq<char>> {
        views(self.items@)
    }

    pub fn new() -> (s: StringSet)
        ensures
            s@ == Set::<Seq<char>>::empty(),
    {
        let s = StringSet { items: Vec::new() };
        assert(views(s.items@) =~= Seq::<Seq<char>>::empty());
        assert(s@ =~= Set::<Seq<char>>::empty());
        s
    }

    /// The index of the first member not below `v`, and whether it equals `v`.
    fn locate(&self, v: &[char]) -> (r: (usize, bool))
        ensures
            r.0 <= self.items@.len(),
            forall|k: int| 0 <= k < r.0 ==> str_lt(#[trigger] self.members()[k], v@),
            r.0 < self.items@.len() ==> !str_lt(self.members()[r.0 as int], v@),
            r.1 == (r.0 < self.items@.len() && self.members()[r.0 as int] == v@),
    {
        proof {
            use_type_invariant(self);
        }
        let mut i: usize = 0;
        while i < self.items.len()
            invariant
                i <= self.items@.len(),
                strictly_sorted(views(self.items@)),
                forall|k: int| 0 <= k < i ==> str_lt(#[trigger] views(self.items@)[k], v@),
            decreases self.items.len() - i,
        {
            let cs = chars_of(self.items[i].as_str());
            assert(cs@ == views(self.items@)[i as int]);
            if !str_less(cs.as_slice(), v) {
                let same = chars_eq(cs.as_slice(), v);
                return (i, same);
            }
            i = i + 1;
        }
        (i, false)
    }

    proof fn lemma_member_index(&self, x: Seq<char>)
        requires
            self@.contains(x),
        ensures
            exists|k: int| 0 <= k < self.members().len() && self.members()[k] == x,
    {
        assert(views(self.items@).contains(x));
        let k = choose|k: int| 0 <= k < views(self.items@).len() && views(self.items@)[k] == x;
        assert(self.members()[k] == x);
    }

    pub fn contains(&self, v: &str) -> (r: bool)
        ensures
            r == self@.contains(v@),
    {
        proof {
            use_type_invariant(self);
        }
        let cs = chars_of(v);
        let (i, found) = self.locate(cs.as_slice());
        proof {
            if !found && self@.contains(v@) {
                self.lemma_member_index(v@);
                let k = choose|k: int| 0 <= k < self.members().len() && self.members()[k] == v@;
                if k < i {
                    lemma_str_lt_irreflexive(v@);
                } else if k > i {
                    assert(str_lt(self.members()[i as int], self.members()[k]));
                    lemma_str_lt_total(self.members()[i as int], v@);
                } else {
                }
            }
            if found {
                assert(views(self.items@)[i as int] == v@);
                assert(views(self.items@).contains(v@));
            }
        }
        found
    }

    pub fn add(&mut self, v: &str)
        ensures
            final(self)@ == old(self)@.insert(v@),
    {
        proof {
            use_type_invariant(&*self);
        }
        let cs = chars_of(v);
        let (i, found) = self.locate(cs.as_slice());
        if found {
            proof {
                assert(views(self.items@)[i as int] == v@);
                assert(views(self.items@).contains(v@));
                assert(self@.insert(v@) =~= self@);
            }
            return;
        }
        let ghost before = views(self.items@);
        assert(forall|k: int| 0 <= k < i ==> str_lt(#[trigger] before[k], v@)) by {
            assert forall|k: int| 0 <= k < i implies str_lt(#[trigger] before[k], v@) by {
                assert(before[k] == self.members()[k]);
            }
        }
        let s = string_from(v);
        let mut items = Vec::new();
        std::mem::swap(&mut items, &mut self.items);
        items.insert(i, s);
        proof {
            let after = views(items@);
            assert(after =~= before.insert(i as int, v@));
            assert forall|a: int, b: int| 0 <= a < b < after.len() implies str_lt(
                #[trigger] after[a],
                #[trigger] after[b],
            ) by {
                if b < i {
                    assert(after[a] == before[a] && after[b] == before[b]);
                    assert(str_lt(before[a], before[b]));
                } else if a < i && b == i {
                    assert(after[a] == before[a] && after[b] == v@);
                    assert(str_lt(before[a], v@));
                } else if a < i && b > i {
                    assert(after[a] == before[a] && after[b] == before[b - 1]);
                    assert(str_lt(before[a], before[b - 1]));
                } else if a == i && b > i {
                    assert(after[a] == v@ && after[b] == before[b - 1]);
                    assert(!str_lt(before[i as int], v@));
                    if i < before.len() {
                        lemma_str_lt_total(before[i as int], v@);
                        if b - 1 > i {
                            assert(str_lt(before[i as int], before[b - 1]));
                            lemma_str_lt_transitive(v@, before[i as int], before[b - 1]);
                        }
                    }
                } else {
                    assert(after[a] == before[a - 1] && after[b] == before[b - 1]);
                    assert(str_lt(before[a - 1], before[b - 1]));
                }
            }
            assert(after.to_set() =~= before.to_set().insert(v@)) by {
                assert forall|x: Seq<char>| after.contains(x) <==> before.contains(x) || x == v@ by {
                    if after.contains(x) {
                        let k = choose|k: int| 0 <= k < after.len() && after[k] == x;
                        if k < i {
                            assert(before[k] == x);
                        } else if k > i {
                            assert(before[k - 1] == x);
                        }
                    }
                    if before.contains(x) {
                        let k = choose|k: int| 0 <= k < before.len() && before[k] == x;
                        if k < i {
                            assert(after[k] == x);
                        } else {
                            assert(after[k + 1] == x);
                        }
                    }
                    if x == v@ {
                        assert(after[i as int] == x);
                    }
                }
            }
        }
        self.items = items;
    }

    pub fn remove(&mut self, v: &str)
        ensures
            final(self)@ == old(self)@.remove(v@),
    {
        proof {
            use_type_invariant(&*self);
        }
        let cs = chars_of(v);
        let (i, found) = self.locate(cs.as_slice());
        let ghost before = views(self.items@);
        if !found {
            proof {
                if self@.contains(v@) {
                    self.lemma_member_index(v@);
                    let k = choose|k: int| 0 <= k < before.len() && before[k] == v@;
                    if k < i {
                        lemma_str_lt_irreflexive(v@);
                    } else if k > i {
                        assert(str_lt(before[i as int], before[k]));
                        lemma_str_lt_total(before[i as int], v@);
                    }
                }
                assert(self@.remove(v@) =~= self@);
            }
            return;
        }
        let mut items = Vec::new();
        std::mem::swap(&mut items, &mut self.items);
        items.remove(i);
        proof {
            let after = views(items@);
            assert(after =~= before.remove(i as int));
            assert forall|a: int, b: int| 0 <= a < b < after.len() implies str_lt(
                #[trigger] after[a],
                #[trigger] after[b],
            ) by {
                if b < i {
                } else if a < i {
                    assert(str_lt(before[a], before[b + 1]));
                } else {
                    assert(str_lt(before[a + 1], before[b + 1]));
                }
            }
            assert(after.to_set() =~= before.to_set().remove(v@)) by {
                assert forall|x: Seq<char>| after.contains(x) <==> before.contains(x) && x != v@ by {
                    if after.contains(x) {
                        let k = choose|k: int| 0 <= k < after.len() && after[k] == x;
                        if k < i {
                            assert(before[k] == x);
                            assert(str_lt(before[k], before[i as int]));
                            lemma_str_lt_irreflexive(x);
                        } else {
                            assert(before[k + 1] == x);
                            assert(str_lt(before[i as int], before[k + 1]));
                            lemma_str_lt_irreflexive(x);
                        }
                    }
                    if before.contains(x) && x != v@ {
                        let k = choose|k: int| 0 <= k < before.len() && before[k] == x;
                        if k < i {
                            assert(after[k] == x);
                        } else {
                            assert(k != i);
                            assert(after[k - 1] == x);
                        }
                    }
                }
            }
        }
        self.items = items;
    }

    /// The members, in increasing code point order.
    pub fn sorted_strings(&self) -> (r: Vec<String>)
        ensures
            strictly_sorted(views(r@)),
            views(r@).to_set() == self@,
    {
        proof {
            use_type_invariant(self);
        }
        let r = self.items.clone();
        assert(views(r@) =~= views(self.items@)) by {
            assert forall|k: int| 0 <= k < r@.len() implies r@[k]@ == self.items@[k]@ by {
                assert(vstd::pervasive::cloned(self.items@[k], r@[k]));
            }
        }
        r
    }

    /// A copy of this set.
    pub fn duplicate(&self) -> (r: StringSet)
        ensures
            r@ == self@,
    {
        let items = self.sorted_strings();
        StringSet { items }
    }

    /// The number of members.
    pub fn len(&self) -> (n: usize)
        ensures
            n == self@.len(),
    {
        proof {
            use_type_invariant(self);
            lemma_sorted_distinct(views(self.items@));
            views(self.items@).unique_seq_to_set();
        }
        self.items.len()
    }

    /// The set of the lines that are neither empty nor comments (starting with `#`).
    pub fn from_lines(lines: &[String]) -> (s: StringSet)
        ensures
            forall|x: Seq<char>| #![trigger s@.contains(x)]
                s@.contains(x) <==> exists|k: int|
                    0 <= k < lines@.len() && (#[trigger] lines@[k])@ == x && is_listed_line(x),
    {
        let mut s = StringSet::new();
        let mut i: usize = 0;
        while i < lines.len()
            invariant
                i <= lines.len(),
                forall|x: Seq<char>| #![trigger s@.contains(x)]
                    s@.contains(x) <==> exists|k: int|
                        0 <= k < i && (#[trigger] lines@[k])@ == x && is_listed_line(x),
            decreases lines.len() - i,
        {
            let cs = chars_of(lines[i].as_str());
            let ghost before = s@;
            if cs.len() > 0 && cs[0] != '#' {
                s.add(lines[i].as_str());
            }
            proof {
                assert forall|x: Seq<char>| #![trigger s@.contains(x)]
                    s@.contains(x) <==> exists|k: int|
                        0 <= k < i + 1 && (#[trigger] lines@[k])@ == x && is_listed_line(x) by {
                    if s@.contains(x) && !before.contains(x) {
                        assert(lines@[i as int]@ == x);
                    }
                    if exists|k: int| 0 <= k < i + 1 && (#[trigger] lines@[k])@ == x && is_listed_line(x) {
                        let k = choose|k: int| 0 <= k < i + 1 && (#[trigger] lines@[k])@ == x && is_listed_line(x);
                        if k < i {
                            assert(before.contains(x));
                        }
                    }
                }
            }
            i = i + 1;
        }
        s
    }
}

/// Whether a line of a list file names an entry: not empty and not a `#` comment.
pub open spec fn is_listed_line(x: Seq<char>) -> bool {
    x.len() > 0 && x[0] != '#'
}

proof fn lemma_sorted_distinct(s: Seq<Seq<char>>)
    requires
        strictly_sorted(s),
    ensures
        s.no_duplicates(),
{
    assert forall|i: int, j: int| 0 <= i < s.len() && 0 <= j < s.len() && i != j implies s[i]
        != s[j] by {
        if i < j {
            assert(str_lt(s[i], s[j]));
            if s[i] == s[j] {
                lemma_str_lt_irreflexive(s[i]);
            }
        } else {
            assert(str_lt(s[j], s[i]));
            if s[i] == s[j] {
                lemma_str_lt_irreflexive(s[i]);
            }
        }
    }
}

/// Two strictly sorted sequences of strings with the same members are the same
/// sequence: the sorted members of a set do not depend on how it was built.
pub proof fn lemma_sorted_unique(a: Seq<Seq<char>>, b: Seq<Seq<char>>)
    requires
        strictly_sorted(a),
        strictly_sorted(b),
        a.to_set() == b.to_set(),
    ensures
        a == b,
    decreases a.len(),
{
    if a.len() == 0 {
        if b.len() > 0 {
            assert(b.to_set().contains(b[0]));
            assert(!a.to_set().contains(b[0]));
        }
        assert(a =~= b);
    } else {
        assert(a.to_set().contains(a[0]));
        assert(b.to_set().contains(a[0]));
        let j = choose|j: int| 0 <= j < b.len() && b[j] == a[0];
        assert(b.len() > 0);
        assert(b.to_set().contains(b[0]));
        assert(a.to_set().contains(b[0]));
        let i = choose|i: int| 0 <= i < a.len() && a[i] == b[0];
        if j > 0 {
            assert(str_lt(b[0], b[j]));
            if i > 0 {
                assert(str_lt(a[0], a[i]));
                lemma_str_lt_asymmetric(a[0], b[0]);
            } else {
                lemma_str_lt_irreflexive(a[0]);
            }
        }
        assert(a[0] == b[0]);
        let a1 = a.drop_first();
        let b1 = b.drop_first();
        assert(strictly_sorted(a1)) by {
            assert forall|x: int, y: int| 0 <= x < y < a1.len() implies str_lt(#[trigger] a1[x], #[trigger] a1[y]) by {
                assert(a1[x] == a[x + 1] && a1[y] == a[y + 1]);
            }
        }
        assert(strictly_sorted(b1)) by {
            assert forall|x: int, y: int| 0 <= x < y < b1.len() implies str_lt(#[trigger] b1[x], #[trigger] b1[y]) by {
                assert(b1[x] == b[x + 1] && b1[y] == b[y + 1]);
            }
        }
        assert(a1.to_set() =~= b1.to_set()) by {
            assert forall|w: Seq<char>| a1.to_set().contains(w) implies b1.to_set().contains(w) by {
                let x = choose|x: int| 0 <= x < a1.len() && a1[x] == w;
                assert(a[x + 1] == w);
                assert(str_lt(a[0], a[x + 1]));
                assert(b.to_set().contains(w));
                let y = choose|y: int| 0 <= y < b.len() && b[y] == w;
                if y == 0 {
                    lemma_str_lt_irreflexive(w);
                }
                assert(b1[y - 1] == w);
            }
            assert forall|w: Seq<char>| b1.to_set().contains(w) implies a1.to_set().contains(w) by {
                let y = choose|y: int| 0 <= y < b1.len() && b1[y] == w;
                assert(b[y + 1] == w);
                assert(str_lt(b[0], b[y + 1]));
                assert(a.to_set().contains(w));
                let x = choose|x: int| 0 <= x < a.len() && a[x] == w;
                if x == 0 {
                    lemma_str_lt_irreflexive(w);
                }
                assert(a1[x - 1] == w);
            }
        }
        lemma_sorted_unique(a1, b1);
        assert(a =~= seq![a[0]] + a1);
        assert(b =~= seq![b[0]] + b1);
    }
}

/// Adding a member that is already there changes nothing, and removing what was
/// added leaves the set as it would be with that member removed.
pub proof fn lemma_add_remove(s0: Set<Seq<char>>, v: Seq<char>)
    ensures
        s0.contains(v) ==> s0.insert(v) == s0,
        s0.insert(v).contains(v),
        s0.insert(v).remove(v) == s0.remove(v),
        !s0.insert(v).remove(v).contains(v),
        forall|w: Seq<char>| w != v ==> (s0.insert(v).remove(v).contains(w) == s0.contains(w)),
{
    assert(s0.insert(v).remove(v) =~= s0.remove(v));
    if s0.contains(v) {
        assert(s0.insert(v) =~= s0);
    }
}

} // verus!
