//! The case-normalised order on names.
use vstd::prelude::*;
use crate::name::{Name, fold_code, key_of};

verus! {

/// Lexicographic order on folded keys.
pub open spec fn key_lt(a: Seq<u32>, b: Seq<u32>) -> bool
    decreases a.len(),
{
    if a.len() == 0 {
        b.len() > 0
    } else if b.len() == 0 {
        false
    } else if a[0] != b[0] {
        a[0] < b[0]
    } else {
        key_lt(a.drop_first(), b.drop_first())
    }
}

pub proof fn lemma_key_lt_irrefl(a: Seq<u32>)
    ensures
        !key_lt(a, a),
    decreases a.len(),
{
    if a.len() > 0 {
        lemma_key_lt_irrefl(a.drop_first());
    }
}

pub proof fn lemma_key_lt_trans(a: Seq<u32>, b: Seq<u32>, c: Seq<u32>)
    requires
        key_lt(a, b),
        key_lt(b, c),
    ensures
        key_lt(a, c),
    decreases a.len(),
{
    if a.len() > 0 && b.len() > 0 && c.len() > 0 && a[0] == b[0] && b[0] == c[0] {
        lemma_key_lt_trans(a.drop_first(), b.drop_first(), c.drop_first());
    }
}

pub proof fn lemma_key_lt_total(a: Seq<u32>, b: Seq<u32>)
    ensures
        a == b || key_lt(a, b) || key_lt(b, a),
    decreases a.len(),
{
    if a.len() > 0 && b.len() > 0 && a[0] == b[0] {
        lemma_key_lt_total(a.drop_first(), b.drop_first());
        if a.drop_first() == b.drop_first() {
            assert(a =~= seq![a[0]] + a.drop_first());
            assert(b =~= seq![b[0]] + b.drop_first());
        }
    } else if a.len() == 0 && b.len() == 0 {
        assert(a =~= b);
    }
}

pub proof fn lemma_key_lt_asym(a: Seq<u32>, b: Seq<u32>)
    requires
        key_lt(a, b),
    ensures
        !key_lt(b, a),
{
    if key_lt(b, a) {
        lemma_key_lt_trans(a, b, a);
        lemma_key_lt_irrefl(a);
    }
}

/// Where the keys agree before `i`, the order is decided at `i`.
proof fn lemma_key_lt_at(a: Seq<u32>, b: Seq<u32>, i: int)
    requires
        0 <= i <= a.len(),
        i <= b.len(),
        a.subrange(0, i) == b.subrange(0, i),
    ensures
        i < a.len() && i < b.len() && a[i] != b[i] ==> (key_lt(a, b) <==> a[i] < b[i]),
        i == a.len() ==> (key_lt(a, b) <==> i < b.len()),
        i == b.len() && i < a.len() ==> !key_lt(a, b),
    decreases i,
{
    if i > 0 {
        assert(a[0] == a.subrange(0, i)[0]);
        assert(b[0] == b.subrange(0, i)[0]);
        assert(a.drop_first().subrange(0, i - 1) =~= a.subrange(0, i).drop_first());
        assert(b.drop_first().subrange(0, i - 1) =~= b.subrange(0, i).drop_first());
        lemma_key_lt_at(a.drop_first(), b.drop_first(), i - 1);
    }
}

/// Compare two names by their folded keys: negative, zero or positive.
pub fn compare_names(a: &Name, b: &Name) -> (r: i8)
    ensures
        r < 0 <==> key_lt(key_of(a@), key_of(b@)),
        r == 0 <==> key_of(a@) == key_of(b@),
        r > 0 <==> key_lt(key_of(b@), key_of(a@)),
{
    let s = a.as_str();
    let t = b.as_str();
    let n = s.unicode_len();
    let m = t.unicode_len();
    let ghost ka = key_of(a@);
    let ghost kb = key_of(b@);
    let mut i: usize = 0;
    while i < n && i < m
        invariant
            n == ka.len(),
            m == kb.len(),
            s@ == a@,
            t@ == b@,
            ka == key_of(a@),
            kb == key_of(b@),
            0 <= i <= n,
            i <= m,
            ka.subrange(0, i as int) == kb.subrange(0, i as int),
        decreases n - i,
    {
        let x = fold_code(s.get_char(i));
        let y = fold_code(t.get_char(i));
        if x != y {
            proof {
                lemma_key_lt_at(ka, kb, i as int);
                lemma_key_lt_at(kb, ka, i as int);
                if ka == kb {
                    assert(ka[i as int] == kb[i as int]);
                }
            }
            if x < y {
                return -1;
            } else {
                return 1;
            }
        }
        assert(ka.subrange(0, i + 1) =~= ka.subrange(0, i as int).push(x));
        assert(kb.subrange(0, i + 1) =~= kb.subrange(0, i as int).push(y));
        i = i + 1;
    }
    proof {
        lemma_key_lt_at(ka, kb, i as int);
        lemma_key_lt_at(kb, ka, i as int);
        lemma_key_lt_irrefl(ka);
        if i == n && i == m {
            assert(ka =~= ka.subrange(0, i as int));
            assert(kb =~= kb.subrange(0, i as int));
        }
    }
    if n < m {
        -1
    } else if n == m {
        0
    } else {
        1
    }
}

/// The code points of a text.
pub open spec fn codes(s: Seq<char>) -> Seq<u32> {
    Seq::new(s.len(), |i: int| s[i] as u32)
}

/// Compare two texts by their code points: negative, zero or positive.
pub fn compare_codes(s: &str, t: &str) -> (r: i8)
    ensures
        r < 0 <==> key_lt(codes(s@), codes(t@)),
        r == 0 <==> codes(s@) == codes(t@),
        r > 0 <==> key_lt(codes(t@), codes(s@)),
{
    let n = s.unicode_len();
    let m = t.unicode_len();
    let ghost ka = codes(s@);
    let ghost kb = codes(t@);
    let mut i: usize = 0;
    while i < n && i < m
        invariant
            n == ka.len(),
            m == kb.len(),
            ka == codes(s@),
            kb == codes(t@),
            0 <= i <= n,
            i <= m,
            ka.subrange(0, i as int) == kb.subrange(0, i as int),
        decreases n - i,
    {
        let x = s.get_char(i) as u32;
        let y = t.get_char(i) as u32;
        if x != y {
            proof {
                lemma_key_lt_at(ka, kb, i as int);
                lemma_key_lt_at(kb, ka, i as int);
                if ka == kb {
                    assert(ka[i as int] == kb[i as int]);
                }
            }
            if x < y {
                return -1;
            } else {
                return 1;
            }
        }
        assert(ka.subrange(0, i + 1) =~= ka.subrange(0, i as int).push(x));
        assert(kb.subrange(0, i + 1) =~= kb.subrange(0, i as int).push(y));
        i = i + 1;
    }
    proof {
        lemma_key_lt_at(ka, kb, i as int);
        lemma_key_lt_at(kb, ka, i as int);
        lemma_key_lt_irrefl(ka);
        if i == n && i == m {
            assert(ka =~= ka.subrange(0, i as int));
            assert(kb =~= kb.subrange(0, i as int));
        }
    }
    if n < m {
        -1
    } else if n == m {
        0
    } else {
        1
    }
}

impl PartialEq for Name {
    fn eq(&self, other: &Name) -> (r: bool) {
        compare_names(self, other) == 0
    }
}

impl vstd::std_specs::cmp::PartialEqSpecImpl for Name {
    open spec fn obeys_eq_spec() -> bool {
        true
    }

    open spec fn eq_spec(&self, other: &Name) -> bool {
        key_of(self@) == key_of(other@)
    }
}

impl Eq for Name {
}

} // verus!
