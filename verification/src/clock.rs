use vstd::prelude::*;
use crate::text::chars_of;

verus! {

/// Minutes in a day: the number of slots of an activity histogram.
pub const MINUTES_PER_DAY: usize = 1440;

/// Whether `c` is one of the ten decimal digits.
pub open spec fn is_digit(c: char) -> bool {
    '0' <= c <= '9'
}

/// The number that a run of decimal digits writes.
pub open spec fn digits_value(s: Seq<char>) -> nat
    decreases s.len(),
{
    if s.len() == 0 {
        0
    } else {
        digits_value(s.drop_last()) * 10 + (s.last() as nat - '0' as nat) as nat
    }
}

/// Whether every character of `s` is a decimal digit.
pub open spec fn all_digits(s: Seq<char>) -> bool {
    forall|i: int| 0 <= i < s.len() ==> is_digit(#[trigger] s[i])
}

/// The number that `s` writes if it is a run of digits, at least one.
pub open spec fn unsigned(s: Seq<char>) -> Option<nat> {
    if s.len() > 0 && all_digits(s) {
        Some(digits_value(s))
    } else {
        None
    }
}

/// A decimal number: digits, at least one, after an optional `+`.
pub open spec fn number(s: Seq<char>) -> Option<nat> {
    if s.len() > 0 && s[0] == '+' {
        unsigned(s.drop_first())
    } else {
        unsigned(s)
    }
}

/// Where the first `:` of `s` stands, or the length of `s` if it has none.
pub open spec fn first_colon(s: Seq<char>) -> int
    decreases s.len(),
{
    if s.len() == 0 || s[0] == ':' {
        0
    } else {
        1 + first_colon(s.drop_first())
    }
}

/// The minutes that a clock time `H:M` counts: sixty for each hour and one for each
/// minute. The hour is what stands before the first `:`, the minute what stands
/// between it and the next `:` or the end; both are decimal numbers. `None` where
/// the text is not of that form.
pub open spec fn clock_minutes(s: Seq<char>) -> Option<nat> {
    let i = first_colon(s);
    if i >= s.len() {
        None
    } else {
        let rest = s.skip(i + 1);
        match (number(s.take(i)), number(rest.take(first_colon(rest)))) {
            (Some(h), Some(m)) => Some(h * 60 + m),
            _ => None,
        }
    }
}

proof fn lemma_first_colon(s: Seq<char>)
    ensures
        0 <= first_colon(s) <= s.len(),
        first_colon(s) < s.len() ==> s[first_colon(s)] == ':',
        forall|k: int| 0 <= k < first_colon(s) ==> s[k] != ':',
    decreases s.len(),
{
    if s.len() == 0 || s[0] == ':' {
    } else {
        let t = s.drop_first();
        lemma_first_colon(t);
        assert forall|k: int| 0 <= k < first_colon(s) implies s[k] != ':' by {
            if k > 0 {
                assert(t[k - 1] == s[k]);
            }
        }
    }
}

proof fn lemma_first_colon_is(s: Seq<char>, at: int)
    requires
        0 <= at <= s.len(),
        at < s.len() ==> s[at] == ':',
        forall|k: int| 0 <= k < at ==> s[k] != ':',
    ensures
        first_colon(s) == at,
{
    lemma_first_colon(s);
    let f = first_colon(s);
    if f < at {
        assert(s[f] == ':');
    } else if f > at {
        assert(s[at] != ':');
    }
}

proof fn lemma_digits_grow(s: Seq<char>, k: int)
    requires
        0 <= k <= s.len(),
    ensures
        digits_value(s.take(k)) <= digits_value(s),
    decreases s.len() - k,
{
    if k < s.len() {
        lemma_digits_grow(s, k + 1);
        assert(s.take(k + 1).drop_last() =~= s.take(k));
    } else {
        assert(s.take(k) =~= s);
    }
}

/// Finds the first `:` of `v` at or after `from`.
fn find_colon(v: &Vec<char>, from: usize) -> (at: usize)
    requires
        from <= v.len(),
    ensures
        from <= at <= v.len(),
        at - from == first_colon(v@.skip(from as int)),
{
    let mut at: usize = from;
    while at < v.len() && v[at] != ':'
        invariant
            from <= at <= v.len(),
            forall|k: int| from <= k < at ==> v@[k] != ':',
        decreases v.len() - at,
    {
        at = at + 1;
    }
    proof {
        lemma_first_colon_is(v@.skip(from as int), at - from);
    }
    at
}

/// Reads the decimal number that `v` holds from `from` up to `to`.
#[verifier::loop_isolation(false)]
fn parse_number(v: &Vec<char>, from: usize, to: usize) -> (r: Option<usize>)
    requires
        from <= to <= v.len(),
    ensures
        match r {
            Some(n) => number(v@.subrange(from as int, to as int)) == Some(n as nat),
            None => match number(v@.subrange(from as int, to as int)) {
                Some(n) => n > usize::MAX,
                None => true,
            },
        },
{
    let ghost s = v@.subrange(from as int, to as int);
    let start: usize = if from < to && v[from] == '+' {
        from + 1
    } else {
        from
    };
    let ghost digits = v@.subrange(start as int, to as int);
    proof {
        if from < to {
            assert(s[0] == v@[from as int]);
        }
        if start > from {
            assert(s.drop_first() =~= digits);
        } else {
            assert(s =~= digits);
        }
    }
    if start == to {
        return None;
    }
    let mut k: usize = start;
    while k < to
        invariant
            start <= k <= to,
            forall|j: int| 0 <= j < k - start ==> is_digit(#[trigger] digits[j]),
        decreases to - k,
    {
        let c = v[k];
        assert(digits[k - start] == c);
        if !('0' <= c && c <= '9') {
            assert(!is_digit(digits[k - start]));
            return None;
        }
        k = k + 1;
    }
    let mut value: usize = 0;
    let mut i: usize = start;
    proof {
        assert(digits.take(0) =~= Seq::<char>::empty());
    }
    while i < to
        invariant
            start <= i <= to,
            value == digits_value(digits.take(i - start)),
        decreases to - i,
    {
        let c = v[i];
        proof {
            assert(digits[i - start] == c);
            assert(is_digit(digits[i - start]));
            assert(digits.take(i - start + 1).drop_last() =~= digits.take(i - start));
            assert(digits.take(i - start + 1).last() == c);
        }
        let d: u128 = (c as u32 - '0' as u32) as u128;
        let next: u128 = (value as u128) * 10 + d;
        if next > usize::MAX as u128 {
            proof {
                lemma_digits_grow(digits, i - start + 1);
            }
            return None;
        }
        value = next as usize;
        i = i + 1;
    }
    proof {
        assert(digits.take(i - start) =~= digits);
    }
    Some(value)
}

/// Reads a clock time from its characters.
fn parse_clock(v: &Vec<char>) -> (r: Option<usize>)
    ensures
        match r {
            Some(n) => clock_minutes(v@) == Some(n as nat),
            None => match clock_minutes(v@) {
                Some(n) => n > usize::MAX,
                None => true,
            },
        },
{
    let colon = find_colon(v, 0);
    proof {
        assert(v@.skip(0) =~= v@);
    }
    if colon >= v.len() {
        return None;
    }
    let end = find_colon(v, colon + 1);
    proof {
        let rest = v@.skip(colon + 1);
        assert(v@.take(colon as int) =~= v@.subrange(0, colon as int));
        assert(rest.take(first_colon(rest)) =~= v@.subrange(colon + 1, end as int));
    }
    let hours = parse_number(v, 0, colon);
    let minutes = parse_number(v, colon + 1, end);
    match (hours, minutes) {
        (Some(h), Some(m)) => {
            let total: u128 = (h as u128) * 60 + (m as u128);
            if total > usize::MAX as u128 {
                None
            } else {
                Some(total as usize)
            }
        },
        _ => None,
    }
}

/// The minutes that the clock time `data` counts from midnight.
pub fn time_to_number(data: &str) -> (minutes: usize)
    requires
        clock_minutes(data@) is Some,
        clock_minutes(data@).unwrap() <= usize::MAX,
    ensures
        minutes == clock_minutes(data@).unwrap(),
{
    let v = chars_of(data);
    match parse_clock(&v) {
        Some(minutes) => minutes,
        None => 0,
    }
}

/// The minute of the day that `data` names, if it is a clock time within one day.
pub fn minute_of_day(data: &str) -> (minute: Option<usize>)
    ensures
        match minute {
            Some(m) => clock_minutes(data@) == Some(m as nat) && m < MINUTES_PER_DAY,
            None => match clock_minutes(data@) {
                Some(n) => n >= MINUTES_PER_DAY,
                None => true,
            },
        },
{
    let v = chars_of(data);
    match parse_clock(&v) {
        Some(m) => if m < MINUTES_PER_DAY {
            Some(m)
        } else {
            None
        },
        None => None,
    }
}

} // verus!
