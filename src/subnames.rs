//! Sub-identifiers declared in an artifact's text, written `[[.name]]`.
use vstd::prelude::*;
use vstd::string::*;
use crate::implemented::SubName;
use crate::name::is_seg_char;

verus! {

/// The first index at or after `j` that does not hold a segment character.
pub open spec fn seg_run_end(s: Seq<char>, j: int) -> int
    decreases s.len() - j,
{
    if j < 0 || j >= s.len() || !is_seg_char(s[j]) {
        j
    } else {
        seg_run_end(s, j + 1)
    }
}

/// Where a marker `[[.name]]` that starts at `i` ends, if one does.
pub open spec fn marker_end(s: Seq<char>, i: int) -> Option<int> {
    if 0 <= i && i + 3 <= s.len() && s[i] == '[' && s[i + 1] == '[' && s[i + 2] == '.' {
        let j = seg_run_end(s, i + 3);
        if j > i + 3 && j + 2 <= s.len() && s[j] == ']' && s[j + 1] == ']' {
            Some(j + 2)
        } else {
            None
        }
    } else {
        None
    }
}

/// The markers of `s` from `i` on, left to right, each as `.name`.
pub open spec fn markers_from(s: Seq<char>, i: int) -> Seq<Seq<char>>
    decreases s.len() - i,
{
    if i < 0 || i >= s.len() {
        Seq::empty()
    } else {
        match marker_end(s, i) {
            Some(e) => seq![s.subrange(i + 2, e - 2)] + markers_from(s, e),
            None => markers_from(s, i + 1),
        }
    }
}

/// `s` without repeats, first occurrences kept in order.
pub open spec fn dedup(s: Seq<Seq<char>>) -> Seq<Seq<char>>
    decreases s.len(),
{
    if s.len() == 0 {
        s
    } else if dedup(s.drop_last()).contains(s.last()) {
        dedup(s.drop_last())
    } else {
        dedup(s.drop_last()).push(s.last())
    }
}

/// The sub-identifiers of a text: its markers, each once.
pub open spec fn subnames_of(s: Seq<char>) -> Seq<Seq<char>> {
    dedup(markers_from(s, 0))
}

proof fn lemma_seg_run_end(s: Seq<char>, j: int)
    requires
        0 <= j <= s.len(),
    ensures
        j <= seg_run_end(s, j) <= s.len(),
        seg_run_end(s, j) < s.len() ==> !is_seg_char(s[seg_run_end(s, j)]),
    decreases s.len() - j,
{
    if j < s.len() && is_seg_char(s[j]) {
        lemma_seg_run_end(s, j + 1);
    }
}

proof fn lemma_markers_len(s: Seq<char>, i: int)
    requires
        0 <= i <= s.len(),
    ensures
        2 * markers_from(s, i).len() <= s.len() - i,
    decreases s.len() - i,
{
    if i < s.len() {
        match marker_end(s, i) {
            Some(e) => {
                lemma_seg_run_end(s, i + 3);
                lemma_markers_len(s, e);
            },
            None => {
                lemma_markers_len(s, i + 1);
            },
        }
    }
}

proof fn lemma_dedup_len(s: Seq<Seq<char>>)
    ensures
        dedup(s).len() <= s.len(),
    decreases s.len(),
{
    if s.len() > 0 {
        lemma_dedup_len(s.drop_last());
    }
}

proof fn lemma_dedup_no_duplicates(s: Seq<Seq<char>>)
    ensures
        dedup(s).no_duplicates(),
    decreases s.len(),
{
    if s.len() > 0 {
        lemma_dedup_no_duplicates(s.drop_last());
        let d = dedup(s.drop_last());
        if !d.contains(s.last()) {
            let e = d.push(s.last());
            assert forall|i: int, j: int| 0 <= i < e.len() && 0 <= j < e.len() && i != j implies e[i] != e[j] by {
                if i < d.len() && j < d.len() {
                    assert(e[i] == d[i] && e[j] == d[j]);
                } else if i < d.len() {
                    assert(e[i] == d[i]);
                } else {
                    assert(e[j] == d[j]);
                }
            }
        }
    }
}

fn is_seg(c: char) -> (r: bool)
    ensures
        r == is_seg_char(c),
{
    ('a' <= c && c <= 'z') || ('A' <= c && c <= 'Z') || ('0' <= c && c <= '9') || c == '_'
}

fn find_marker_end(s: &str, n: usize, i: usize) -> (r: Option<usize>)
    requires
        n == s@.len(),
        i < n,
    ensures
        match r {
            Some(e) => marker_end(s@, i as int) == Some(e as int),
            None => marker_end(s@, i as int) is None,
        },
{
    if n - i < 3 || s.get_char(i) != '[' || s.get_char(i + 1) != '[' || s.get_char(i + 2) != '.' {
        return None;
    }
    let mut j: usize = i + 3;
    while j < n && is_seg(s.get_char(j))
        invariant
            i + 3 <= j <= n,
            n == s@.len(),
            seg_run_end(s@, j as int) == seg_run_end(s@, i + 3),
        decreases n - j,
    {
        j = j + 1;
    }
    if j > i + 3 && n - j >= 2 && s.get_char(j) == ']' && s.get_char(j + 1) == ']' {
        Some(j + 2)
    } else {
        None
    }
}

/// The sub-identifiers of a text, each once, in the order they first
/// appear.
pub fn parse_subnames(text: &str) -> (r: Vec<SubName>)
    ensures
        r@.map_values(|x: SubName| x@) == subnames_of(text@),
        subnames_of(text@).no_duplicates(),
        2 * r@.len() <= text@.len(),
        r@.len() < usize::MAX,
{
    let n = text.unicode_len();
    let ghost s = text@;
    let mut found: Vec<SubName> = Vec::new();
    let ghost seen: Seq<Seq<char>> = Seq::empty();
    let mut i: usize = 0;
    while i < n
        invariant
            n == s.len(),
            s == text@,
            i <= n,
            dedup(seen + markers_from(s, i as int)) == subnames_of(s),
            found@.map_values(|x: SubName| x@) == dedup(seen),
        decreases n - i,
    {
        match find_marker_end(text, n, i) {
            Some(e) => {
                proof {
                    lemma_seg_run_end(s, i + 3);
                }
                let m = String::from_str(text.substring_char(i + 2, e - 2));
                let ghost mv = s.subrange(i + 2, e - 2);
                assert(seen + markers_from(s, i as int) =~= seen.push(mv) + markers_from(s, e as int));
                let mut k: usize = 0;
                let mut present = false;
                while k < found.len()
                    invariant
                        k <= found@.len(),
                        !present ==> forall|q: int| 0 <= q < k ==> found@[q]@ != mv,
                        present ==> found@.map_values(|x: SubName| x@).contains(mv),
                        m@ == mv,
                    decreases found@.len() - k,
                {
                    if found[k].raw == m {
                        assert(found@.map_values(|x: SubName| x@)[k as int] == mv);
                        present = true;
                    }
                    k = k + 1;
                }
                if !present {
                    assert(!found@.map_values(|x: SubName| x@).contains(mv));
                    found.push(SubName { raw: m });
                    assert(found@.map_values(|x: SubName| x@) =~= dedup(seen).push(mv));
                }
                assert(seen.push(mv).drop_last() =~= seen);
                proof {
                    seen = seen.push(mv);
                }
                i = e;
            },
            None => {
                i = i + 1;
            },
        }
    }
    assert(seen + markers_from(s, i as int) =~= seen);
    proof {
        lemma_markers_len(s, 0);
        lemma_dedup_len(markers_from(s, 0));
        lemma_dedup_no_duplicates(markers_from(s, 0));
        assert(found@.len() == found@.map_values(|x: SubName| x@).len());
    }
    found
}

} // verus!
