//! Normalisation of an artifact's free text.
use vstd::prelude::*;
use vstd::string::*;

verus! {

/// The Unicode `White_Space` characters.
pub open spec fn is_ws(c: char) -> bool {
    ||| ('\u{9}' <= c && c <= '\u{d}')
    ||| c == ' '
    ||| c == '\u{85}'
    ||| c == '\u{a0}'
    ||| c == '\u{1680}'
    ||| ('\u{2000}' <= c && c <= '\u{200a}')
    ||| c == '\u{2028}'
    ||| c == '\u{2029}'
    ||| c == '\u{202f}'
    ||| c == '\u{205f}'
    ||| c == '\u{3000}'
}

/// `s` without its trailing whitespace.
pub open spec fn trim_end(s: Seq<char>) -> Seq<char>
    decreases s.len(),
{
    if s.len() > 0 && is_ws(s.last()) {
        trim_end(s.drop_last())
    } else {
        s
    }
}

/// Clean text: trailing whitespace trimmed, then one newline added back
/// where the text holds more than one line.
pub open spec fn clean_text_of(s: Seq<char>) -> Seq<char> {
    if trim_end(s).contains('\n') {
        trim_end(s).push('\n')
    } else {
        trim_end(s)
    }
}

pub proof fn lemma_trim_end_prefix(s: Seq<char>)
    ensures
        trim_end(s).len() <= s.len(),
        trim_end(s) == s.subrange(0, trim_end(s).len() as int),
        trim_end(s).len() == 0 || !is_ws(trim_end(s).last()),
        forall|j: int| trim_end(s).len() <= j < s.len() ==> is_ws(#[trigger] s[j]),
    decreases s.len(),
{
    if s.len() > 0 && is_ws(s.last()) {
        lemma_trim_end_prefix(s.drop_last());
        assert(s.drop_last().subrange(0, trim_end(s).len() as int) =~= s.subrange(0, trim_end(s).len() as int));
        assert forall|j: int| trim_end(s).len() <= j < s.len() implies is_ws(#[trigger] s[j]) by {
            if j < s.len() - 1 {
                assert(s[j] == s.drop_last()[j]);
            }
        }
    } else {
        assert(s.subrange(0, s.len() as int) =~= s);
    }
}

proof fn lemma_trim_end_fixed(s: Seq<char>)
    requires
        s.len() == 0 || !is_ws(s.last()),
    ensures
        trim_end(s) == s,
{
}

/// Whitespace text has no line break in it.
proof fn lemma_trim_end_ws(t: Seq<char>, c: char)
    requires
        is_ws(c),
        t.len() == 0 || !is_ws(t.last()),
    ensures
        trim_end(t.push(c)) == t,
{
    assert(t.push(c).drop_last() =~= t);
    assert(t.push(c).last() == c);
    lemma_trim_end_fixed(t);
}

/// Cleaning clean text changes nothing.
pub proof fn lemma_clean_text_idempotent(s: Seq<char>)
    ensures
        clean_text_of(clean_text_of(s)) == clean_text_of(s),
{
    lemma_trim_end_prefix(s);
    let t = trim_end(s);
    lemma_trim_end_fixed(t);
    if t.contains('\n') {
        lemma_trim_end_ws(t, '\n');
    }
}

/// Whether `c` is whitespace.
pub fn is_whitespace(c: char) -> (r: bool)
    ensures
        r == is_ws(c),
{
    ('\u{9}' <= c && c <= '\u{d}') || c == ' ' || c == '\u{85}' || c == '\u{a0}' || c == '\u{1680}'
        || ('\u{2000}' <= c && c <= '\u{200a}') || c == '\u{2028}' || c == '\u{2029}' || c
        == '\u{202f}' || c == '\u{205f}' || c == '\u{3000}'
}

/// Trim the trailing whitespace of `s` in place.
pub fn string_trim_right(s: &mut String)
    ensures
        final(s)@ == trim_end(old(s)@),
{
    proof {
        lemma_trim_end_prefix(s@);
    }
    let t = s.as_str();
    let mut k: usize = t.unicode_len();
    assert(t@.subrange(0, k as int) =~= t@);
    while k > 0 && is_whitespace(t.get_char(k - 1))
        invariant
            k <= t@.len(),
            t@ == old(s)@,
            trim_end(t@) == trim_end(t@.subrange(0, k as int)),
        decreases k,
    {
        assert(t@.subrange(0, k as int).drop_last() =~= t@.subrange(0, k - 1));
        k = k - 1;
    }
    let ghost p = t@.subrange(0, k as int);
    proof {
        if k > 0 {
            assert(p.last() == t@[k - 1]);
        }
        lemma_trim_end_fixed(p);
    }
    let out = String::from_str(t.substring_char(0, k));
    *s = out;
}

/// Whether `s` holds a line break.
fn has_newline(s: &str) -> (r: bool)
    ensures
        r == s@.contains('\n'),
{
    let n = s.unicode_len();
    let mut i: usize = 0;
    while i < n
        invariant
            i <= n,
            n == s@.len(),
            forall|j: int| 0 <= j < i ==> s@[j] != '\n',
        decreases n - i,
    {
        if s.get_char(i) == '\n' {
            return true;
        }
        i = i + 1;
    }
    false
}

/// Clean `s` in place: see `clean_text_of`.
pub fn clean_text(s: &mut String)
    ensures
        final(s)@ == clean_text_of(old(s)@),
{
    string_trim_right(s);
    if has_newline(s.as_str()) {
        proof {
            reveal_strlit("\n");
        }
        s.append("\n");
        assert(s@ =~= trim_end(old(s)@).push('\n'));
    }
}

/// The pieces of `s` between the separators `sep`.
pub open spec fn split_on(s: Seq<char>, sep: char) -> Seq<Seq<char>>
    decreases s.len(),
{
    if s.len() == 0 {
        seq![Seq::empty()]
    } else if s.last() == sep {
        split_on(s.drop_last(), sep).push(Seq::empty())
    } else {
        let t = split_on(s.drop_last(), sep);
        t.update(t.len() - 1, t.last().push(s.last()))
    }
}

pub open spec fn strs_view<'a>(v: Seq<&'a str>) -> Seq<Seq<char>> {
    v.map_values(|w: &'a str| w@)
}

/// The pieces of `s` between the separators `sep`.
pub fn split_str<'a>(s: &'a str, sep: char) -> (r: Vec<&'a str>)
    ensures
        strs_view(r@) == split_on(s@, sep),
{
    let n = s.unicode_len();
    let mut out: Vec<&'a str> = Vec::new();
    let mut start: usize = 0;
    let mut i: usize = 0;
    assert(s@.subrange(0, 0) =~= Seq::<char>::empty());
    assert(strs_view(out@).push(s@.subrange(0, 0)) =~= split_on(s@.subrange(0, 0), sep));
    while i < n
        invariant
            start <= i <= n,
            n == s@.len(),
            strs_view(out@).push(s@.subrange(start as int, i as int)) == split_on(
                s@.subrange(0, i as int),
                sep,
            ),
        decreases n - i,
    {
        let ghost pre = s@.subrange(0, i as int);
        assert(s@.subrange(0, i + 1).drop_last() =~= pre);
        assert(s@.subrange(0, i + 1).last() == s@[i as int]);
        if s.get_char(i) == sep {
            out.push(s.substring_char(start, i));
            start = i + 1;
            assert(s@.subrange(start as int, i + 1) =~= Seq::<char>::empty());
            assert(strs_view(out@).push(s@.subrange(start as int, i + 1)) =~= split_on(
                s@.subrange(0, i + 1),
                sep,
            ));
        } else {
            assert(s@.subrange(start as int, i + 1) =~= s@.subrange(start as int, i as int).push(
                s@[i as int],
            ));
            assert(strs_view(out@).push(s@.subrange(start as int, i + 1)) =~= split_on(
                s@.subrange(0, i + 1),
                sep,
            ));
        }
        i = i + 1;
    }
    out.push(s.substring_char(start, n));
    assert(s@.subrange(0, n as int) =~= s@);
    assert(strs_view(out@) =~= split_on(s@, sep));
    out
}

/// `s` without its leading whitespace.
pub open spec fn trim_start(s: Seq<char>) -> Seq<char>
    decreases s.len(),
{
    if s.len() > 0 && is_ws(s[0]) {
        trim_start(s.drop_first())
    } else {
        s
    }
}

/// `s` without whitespace at either end.
pub open spec fn trim(s: Seq<char>) -> Seq<char> {
    trim_start(trim_end(s))
}

proof fn lemma_trim_start_at(s: Seq<char>, m: int)
    requires
        0 <= m <= s.len(),
        forall|j: int| 0 <= j < m ==> is_ws(#[trigger] s[j]),
        m == s.len() || !is_ws(s[m]),
    ensures
        trim_start(s) == s.subrange(m, s.len() as int),
    decreases m,
{
    if m > 0 {
        assert forall|j: int| 0 <= j < m - 1 implies is_ws(#[trigger] s.drop_first()[j]) by {
            assert(s.drop_first()[j] == s[j + 1]);
        }
        if m - 1 < s.len() - 1 {
            assert(s.drop_first()[m - 1] == s[m]);
        }
        lemma_trim_start_at(s.drop_first(), m - 1);
        assert(s.drop_first().subrange(m - 1, s.len() - 1) =~= s.subrange(m, s.len() as int));
    } else {
        assert(s.subrange(0, s.len() as int) =~= s);
    }
}

/// `s` without whitespace at either end.
pub fn trim_str(s: &str) -> (r: &str)
    ensures
        r@ == trim(s@),
{
    proof {
        lemma_trim_end_prefix(s@);
    }
    let mut k: usize = s.unicode_len();
    assert(s@.subrange(0, k as int) =~= s@);
    while k > 0 && is_whitespace(s.get_char(k - 1))
        invariant
            k <= s@.len(),
            trim_end(s@) == trim_end(s@.subrange(0, k as int)),
        decreases k,
    {
        assert(s@.subrange(0, k as int).drop_last() =~= s@.subrange(0, k - 1));
        k = k - 1;
    }
    let ghost p = s@.subrange(0, k as int);
    proof {
        if k > 0 {
            assert(p.last() == s@[k - 1]);
        }
        lemma_trim_end_fixed(p);
    }
    let mut m: usize = 0;
    while m < k && is_whitespace(s.get_char(m))
        invariant
            m <= k,
            k <= s@.len(),
            p == s@.subrange(0, k as int),
            forall|j: int| 0 <= j < m ==> is_ws(#[trigger] p[j]),
        decreases k - m,
    {
        assert(p[m as int] == s@[m as int]);
        m = m + 1;
    }
    proof {
        if m < k {
            assert(p[m as int] == s@[m as int]);
        }
        lemma_trim_start_at(p, m as int);
        assert(p.subrange(m as int, k as int) =~= s@.subrange(m as int, k as int));
    }
    s.substring_char(m, k)
}

} // verus!
