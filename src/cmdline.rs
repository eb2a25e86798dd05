//! The completion filters of the command line: `[<|>]NUM`, NUM a percent.
use vstd::prelude::*;
use vstd::string::*;

verus! {

/// A completion filter: at most (`lt`) or at least `perc` percent.
#[derive(Clone, Copy, Debug, PartialEq, Eq, Structural)]
pub struct PercentSearch {
    pub lt: bool,
    pub perc: u8,
}

pub open spec fn is_digit(c: char) -> bool {
    '0' <= c && c <= '9'
}

/// The value of a string of decimal digits.
pub open spec fn digits_value(s: Seq<char>) -> nat
    decreases s.len(),
{
    if s.len() == 0 {
        0
    } else {
        digits_value(s.drop_last()) * 10 + (s.last() as nat - '0' as nat) as nat
    }
}

/// `s` without one leading `+`.
pub open spec fn unsigned_part(s: Seq<char>) -> Seq<char> {
    if s.len() > 0 && s[0] == '+' {
        s.drop_first()
    } else {
        s
    }
}

pub open spec fn all_digits(t: Seq<char>) -> bool {
    forall|i: int| 0 <= i < t.len() ==> is_digit(#[trigger] t[i])
}

/// What reading `s` as a `u8` gives: an optional `+`, then one or more
/// digits of value at most 255.
pub open spec fn u8_of(s: Seq<char>) -> Option<nat> {
    let t = unsigned_part(s);
    if t.len() > 0 && all_digits(t) && digits_value(t) <= 255 {
        Some(digits_value(t))
    } else {
        None
    }
}

/// What a filter text says: its sign, if any, and its number, if any; none
/// where it is malformed or the number is over 100.
pub open spec fn percent_of(s: Seq<char>) -> Option<(Option<bool>, Option<nat>)> {
    if s.len() == 0 {
        Some((None, None))
    } else if s[0] == '<' || s[0] == '>' {
        let lt = Some(s[0] == '<');
        let rest = s.drop_first();
        if rest.len() == 0 {
            Some((lt, None))
        } else {
            match u8_of(rest) {
                Some(v) => if v <= 100 {
                    Some((lt, Some(v)))
                } else {
                    None
                },
                None => None,
            }
        }
    } else if is_digit(s[0]) {
        match u8_of(s) {
            Some(v) => if v <= 100 {
                Some((None, Some(v)))
            } else {
                None
            },
            None => None,
        }
    } else {
        None
    }
}

proof fn lemma_digits_value_bound(s: Seq<char>, t: Seq<char>)
    requires
        t.len() <= s.len(),
        t == s.subrange(0, t.len() as int),
        forall|i: int| 0 <= i < s.len() ==> is_digit(#[trigger] s[i]),
    ensures
        digits_value(t) <= digits_value(s),
    decreases s.len(),
{
    if t.len() < s.len() {
        assert(s.drop_last().subrange(0, t.len() as int) =~= t);
        lemma_digits_value_bound(s.drop_last(), t);
    } else {
        assert(t =~= s);
    }
}

/// Read `s` from `start` on as a `u8`.
fn parse_u8(s: &str, start: usize, n: usize) -> (r: Result<u8, String>)
    requires
        n == s@.len(),
        start <= n,
    ensures
        match r {
            Ok(v) => u8_of(s@.subrange(start as int, n as int)) == Some(v as nat),
            Err(_) => u8_of(s@.subrange(start as int, n as int)) is None,
        },
{
    let ghost full = s@.subrange(start as int, n as int);
    let mut i = start;
    if i < n && s.get_char(i) == '+' {
        i = i + 1;
    }
    let ghost t = s@.subrange(i as int, n as int);
    assert(t =~= unsigned_part(full));
    if i == n {
        return Err(String::from_str("cannot parse integer from empty string"));
    }
    let mut v: u32 = 0;
    let mut j = i;
    while j < n
        invariant
            i <= j <= n,
            start <= n,
            n == s@.len(),
            t == s@.subrange(i as int, n as int),
            full == s@.subrange(start as int, n as int),
            t == unsigned_part(full),
            forall|q: int| i <= q < j ==> is_digit(#[trigger] s@[q]),
            v as nat == digits_value(s@.subrange(i as int, j as int)),
            v <= 255,
        decreases n - j,
    {
        let c = s.get_char(j);
        if !('0' <= c && c <= '9') {
            assert(t[j - i] == c);
            assert(!is_digit(t[j - i]));
            assert(u8_of(full) is None);
            return Err(String::from_str("invalid digit found in string"));
        }
        let d = (c as u32) - ('0' as u32);
        assert(s@.subrange(i as int, j + 1).drop_last() =~= s@.subrange(i as int, j as int));
        if v * 10 + d > 255 {
            proof {
                let p = s@.subrange(i as int, j + 1);
                assert(p.last() == c);
                assert(digits_value(p) == v * 10 + d);
                assert forall|q: int| 0 <= q < p.len() implies is_digit(#[trigger] p[q]) by {
                    assert(p[q] == s@[i + q]);
                }
                if all_digits(t) {
                    assert(p =~= t.subrange(0, p.len() as int));
                    lemma_digits_value_bound(t, p);
                }
                assert(u8_of(full) is None);
            }
            return Err(String::from_str("number too large to fit in target type"));
        }
        v = v * 10 + d;
        j = j + 1;
    }
    assert(s@.subrange(i as int, j as int) =~= t);
    Ok(v as u8)
}

/// Read a filter text: its sign (`Some(true)` for `<`) and its number,
/// each where given.
pub fn _get_percent(s: &str) -> (r: Result<(Option<bool>, Option<u8>), String>)
    ensures
        match percent_of(s@) {
            Some(p) => r is Ok && r->Ok_0.0 == p.0 && match p.1 {
                Some(v) => r->Ok_0.1 == Some(v as u8),
                None => r->Ok_0.1 is None,
            },
            None => r is Err,
        },
{
    let n = s.unicode_len();
    if n == 0 {
        return Ok((None, None));
    }
    let c = s.get_char(0);
    let mut lt: Option<bool> = None;
    let start: usize;
    if c == '<' || c == '>' {
        lt = Some(c == '<');
        start = 1;
        assert(s@.subrange(1, n as int) =~= s@.drop_first());
        if n == 1 {
            return Ok((lt, None));
        }
    } else if '0' <= c && c <= '9' {
        start = 0;
        assert(s@.subrange(0, n as int) =~= s@);
    } else {
        return Err(String::from_str(
            "percent must be of the form: [SIGN]NUM where NUM is between 0 and 100 and SIGN is an optional < or >",
        ));
    }
    match parse_u8(s, start, n) {
        Ok(v) => {
            if v <= 100 {
                Ok((lt, Some(v)))
            } else {
                Err(String::from_str("NUM must be between 0 and 100"))
            }
        },
        Err(e) => Err(e),
    }
}

/// The filter a text asks for: no number means 100% at least, or 0% at
/// most after `<`; no sign means at least.
pub open spec fn search_of(p: (Option<bool>, Option<nat>)) -> (bool, nat) {
    match p.1 {
        None => match p.0 {
            Some(true) => (true, 0),
            _ => (false, 100),
        },
        Some(v) => (p.0 == Some(true), v),
    }
}

/// Read a filter text into a filter.
pub fn get_percent(s: &str) -> (r: Result<PercentSearch, String>)
    ensures
        match percent_of(s@) {
            Some(p) => r is Ok && (r->Ok_0.lt, r->Ok_0.perc as nat) == search_of(p),
            None => r is Err,
        },
{
    match _get_percent(s) {
        Ok((lt, perc)) => {
            match perc {
                None => match lt {
                    Some(true) => Ok(PercentSearch { lt: true, perc: 0 }),
                    _ => Ok(PercentSearch { lt: false, perc: 100 }),
                },
                Some(p) => Ok(PercentSearch { lt: lt == Some(true), perc: p }),
            }
        },
        Err(e) => Err(e),
    }
}

} // verus!
