//! Decimal numerals, read the way std's `str::parse` reads integers.
use vstd::prelude::*;
use crate::text;

verus! {

/// The value of a decimal numeral as std's `from_str` reads an unsigned integer:
/// an optional `+`, then one or more ASCII digits.
pub open spec fn numeral_value(s: Seq<char>) -> Option<nat> {
    let ds = if s.len() > 0 && s[0] == '+' {
        s.drop_first()
    } else {
        s
    };
    if ds.len() == 0 {
        None
    } else {
        digits_value(ds)
    }
}

/// The value of a run of ASCII digits, if every character is one.
pub open spec fn digits_value(ds: Seq<char>) -> Option<nat>
    decreases ds.len(),
{
    if ds.len() == 0 {
        Some(0)
    } else {
        match digits_value(ds.drop_last()) {
            Some(v) => if text::is_ascii_digit(ds.last()) {
                Some((v * 10 + (ds.last() as int - 48)) as nat)
            } else {
                None
            },
            None => None,
        }
    }
}

/// A `u32` numeral as std reads it: `None` when malformed or too large.
pub open spec fn u32_numeral(s: Seq<char>) -> Option<u32> {
    match numeral_value(s) {
        Some(v) => if v <= u32::MAX {
            Some(v as u32)
        } else {
            None
        },
        None => None,
    }
}

/// A `u64` numeral as std reads it: `None` when malformed or too large.
pub open spec fn u64_numeral(s: Seq<char>) -> Option<u64> {
    match numeral_value(s) {
        Some(v) => if v <= u64::MAX {
            Some(v as u64)
        } else {
            None
        },
        None => None,
    }
}

proof fn lemma_digits_prefix_none(ds: Seq<char>, k: nat)
    requires
        k <= ds.len(),
        digits_value(ds.take(k as int)) is None,
    ensures
        digits_value(ds) is None,
    decreases ds.len(),
{
    if k < ds.len() {
        assert(ds.drop_last().take(k as int) == ds.take(k as int));
        lemma_digits_prefix_none(ds.drop_last(), k);
    } else {
        assert(ds.take(k as int) == ds);
    }
}

proof fn lemma_digits_monotone(ds: Seq<char>, k: nat)
    requires
        k <= ds.len(),
        digits_value(ds) is Some,
    ensures
        digits_value(ds.take(k as int)) is Some,
        digits_value(ds.take(k as int)).unwrap() <= digits_value(ds).unwrap(),
    decreases ds.len(),
{
    if k < ds.len() {
        assert(ds.drop_last().take(k as int) == ds.take(k as int));
        lemma_digits_monotone(ds.drop_last(), k);
    } else {
        assert(ds.take(k as int) == ds);
    }
}

proof fn lemma_digits_step(ds: Seq<char>, k: nat)
    requires
        k < ds.len(),
    ensures
        digits_value(ds.take(k + 1int)) == match digits_value(ds.take(k as int)) {
            Some(v) => if text::is_ascii_digit(ds[k as int]) {
                Some((v * 10 + (ds[k as int] as int - 48)) as nat)
            } else {
                None::<nat>
            },
            None => None,
        },
{
    assert(ds.take(k + 1int).drop_last() == ds.take(k as int));
    assert(ds.take(k + 1int).last() == ds[k as int]);
}

/// Reads `cs[from..to]` as a decimal numeral, the way std's `u64::from_str` does.
pub fn parse_numeral(cs: &[char], from: usize, to: usize) -> (r: Option<u64>)
    requires
        from <= to <= cs.len(),
    ensures
        r == u64_numeral(cs@.subrange(from as int, to as int)),
{
    let ghost s = cs@.subrange(from as int, to as int);
    let mut start = from;
    if from < to {
        assert(s[0] == cs@[from as int]);
        if cs[from] == '+' {
            start = from + 1;
            assert(s.drop_first() == cs@.subrange(start as int, to as int));
        }
    }
    let ghost ds = cs@.subrange(start as int, to as int);
    assert(numeral_value(s) == if ds.len() == 0 { None } else { digits_value(ds) });
    if start == to {
        return None;
    }
    let mut v: u64 = 0;
    let mut i = start;
    assert(ds.take(0) =~= Seq::<char>::empty());
    while i < to
        invariant
            start <= i <= to <= cs.len(),
            ds == cs@.subrange(start as int, to as int),
            s == cs@.subrange(from as int, to as int),
            start < to,
            numeral_value(s) == digits_value(ds),
            digits_value(ds.take((i - start) as int)) == Some(v as nat),
        decreases to - i,
    {
        let c = cs[i];
        proof {
            lemma_digits_step(ds, (i - start) as nat);
            assert(ds[(i - start) as int] == c);
        }
        if c < '0' || c > '9' {
            proof {
                lemma_digits_prefix_none(ds, (i + 1 - start) as nat);
            }
            return None;
        }
        let d = (c as u32 - 48) as u64;
        assert(d == c as int - 48);
        if v > 1844674407370955161 || (v == 1844674407370955161 && d > 5) {
            proof {
                assert(v * 10 + d > u64::MAX);
                if digits_value(ds) is Some {
                    lemma_digits_monotone(ds, (i + 1 - start) as nat);
                }
            }
            return None;
        }
        v = v * 10 + d;
        i = i + 1;
    }
    assert(ds.take((to - start) as int) == ds);
    Some(v)
}

/// A numeral that reads as a `u32` reads as the same `u64`, and a `u64` reading
/// reads as a `u32` exactly when it fits.
pub proof fn lemma_u32_of_u64(s: Seq<char>)
    ensures
        u32_numeral(s) matches Some(v) ==> u64_numeral(s) == Some(v as u64),
        u64_numeral(s) matches Some(v) ==> (v <= u32::MAX <==> u32_numeral(s) is Some),
{
}

/// The value of a numeral as std reads an `i32`: an optional `+` or `-`, then one
/// or more ASCII digits, within range.
pub open spec fn i32_numeral(s: Seq<char>) -> Option<i32> {
    if s.len() > 0 && s[0] == '-' {
        let ds = s.drop_first();
        if ds.len() == 0 {
            None
        } else {
            match digits_value(ds) {
                Some(v) => if v <= 0x8000_0000 {
                    Some((-(v as int)) as i32)
                } else {
                    None
                },
                None => None,
            }
        }
    } else {
        match numeral_value(s) {
            Some(v) => if v <= i32::MAX {
                Some(v as i32)
            } else {
                None
            },
            None => None,
        }
    }
}

/// Reads `s` as an `i32`, the way std's `i32::from_str` does.
pub fn parse_i32(s: &str) -> (r: Option<i32>)
    ensures
        r == i32_numeral(s@),
{
    let cs = text::chars_of(s);
    if cs.len() > 0 && cs[0] == '-' {
        let ghost ds = s@.drop_first();
        assert(ds == cs@.subrange(1, cs.len() as int));
        if cs.len() == 1 {
            return None;
        }
        if cs[1] == '+' {
            assert(digits_value(ds) is None) by {
                assert(ds[0] == '+');
                lemma_digits_prefix_none(ds, 1);
                assert(ds.take(1).drop_last().len() == 0);
                assert(ds.take(1).last() == '+');
            }
            return None;
        }
        assert(numeral_value(ds) == digits_value(ds));
        match parse_numeral(cs.as_slice(), 1, cs.len()) {
            Some(v) => {
                if v <= 0x8000_0000 {
                    Some((0 - (v as i64)) as i32)
                } else {
                    None
                }
            },
            None => None,
        }
    } else {
        assert(cs@.subrange(0, cs.len() as int) == s@);
        match parse_numeral(cs.as_slice(), 0, cs.len()) {
            Some(v) => {
                if v <= 0x7fff_ffff {
                    Some(v as i32)
                } else {
                    None
                }
            },
            None => None,
        }
    }
}

} // verus!
