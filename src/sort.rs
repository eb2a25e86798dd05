//! Ordering vectors by a key, without loss or gain of entries.
use vstd::prelude::*;
use crate::order::{key_lt, lemma_key_lt_irrefl, lemma_key_lt_total, lemma_key_lt_trans};

verus! {

/// Values ordered by a key of code points.
pub trait SortKey: Sized {
    spec fn sort_key(&self) -> Seq<u32>;

    fn cmp_key(&self, other: &Self) -> (r: i8)
        ensures
            r < 0 <==> key_lt(self.sort_key(), other.sort_key()),
    ;
}

/// No later entry has a smaller key than an earlier one.
pub open spec fn sorted_by_key<T: SortKey>(s: Seq<T>) -> bool {
    forall|i: int, j: int| 0 <= i < j < s.len() ==> !key_lt(#[trigger] s[j].sort_key(), #[trigger] s[i].sort_key())
}

/// Each entry's key is smaller than every later one's.
pub open spec fn strictly_sorted_by_key<T: SortKey>(s: Seq<T>) -> bool {
    forall|i: int, j: int| 0 <= i < j < s.len() ==> key_lt(#[trigger] s[i].sort_key(), #[trigger] s[j].sort_key())
}

/// No two entries have the same key.
pub open spec fn keys_distinct<T: SortKey>(s: Seq<T>) -> bool {
    forall|i: int, j: int| 0 <= i < s.len() && 0 <= j < s.len() && i != j ==> #[trigger] s[i].sort_key() != #[trigger] s[j].sort_key()
}

fn min_key_position<T: SortKey>(rem: &Vec<T>) -> (m: usize)
    requires
        rem@.len() > 0,
    ensures
        m < rem@.len(),
        forall|q: int| 0 <= q < rem@.len() ==> !key_lt(#[trigger] rem@[q].sort_key(), rem@[m as int].sort_key()),
{
    let mut m: usize = 0;
    let mut k: usize = 1;
    proof {
        lemma_key_lt_irrefl(rem@[0].sort_key());
    }
    while k < rem.len()
        invariant
            1 <= k <= rem@.len(),
            m < k,
            forall|q: int| 0 <= q < k ==> !key_lt(#[trigger] rem@[q].sort_key(), rem@[m as int].sort_key()),
        decreases rem@.len() - k,
    {
        if rem[k].cmp_key(&rem[m]) < 0 {
            proof {
                assert forall|q: int| 0 <= q < k + 1 implies !key_lt(
                    #[trigger] rem@[q].sort_key(),
                    rem@[k as int].sort_key(),
                ) by {
                    lemma_key_lt_irrefl(rem@[k as int].sort_key());
                    if key_lt(rem@[q].sort_key(), rem@[k as int].sort_key()) {
                        lemma_key_lt_trans(rem@[q].sort_key(), rem@[k as int].sort_key(), rem@[m as int].sort_key());
                    }
                }
            }
            m = k;
        }
        k = k + 1;
    }
    m
}

/// Order `v` by key. The entries stay the same; where their keys were
/// distinct, the order is strict.
pub fn sort_by_key<T: SortKey>(v: &mut Vec<T>)
    ensures
        final(v)@.to_multiset() == old(v)@.to_multiset(),
        sorted_by_key(final(v)@),
        keys_distinct(old(v)@) ==> strictly_sorted_by_key(final(v)@),
{
    broadcast use vstd::seq_lib::group_to_multiset_ensures;

    let ghost orig = v@;
    let ghost u = keys_distinct(orig);
    let mut rem: Vec<T> = Vec::new();
    std::mem::swap(&mut rem, v);
    let mut dest: Vec<T> = Vec::new();
    assert(dest@.to_multiset().add(rem@.to_multiset()) =~= orig.to_multiset());
    while rem.len() > 0
        invariant
            u == keys_distinct(orig),
            dest@.to_multiset().add(rem@.to_multiset()) == orig.to_multiset(),
            sorted_by_key(dest@),
            u ==> keys_distinct(rem@),
            u ==> strictly_sorted_by_key(dest@),
            forall|d: int, q: int|
                0 <= d < dest@.len() && 0 <= q < rem@.len() ==> !key_lt(
                    #[trigger] rem@[q].sort_key(),
                    #[trigger] dest@[d].sort_key(),
                ),
            u ==> forall|d: int, q: int|
                0 <= d < dest@.len() && 0 <= q < rem@.len() ==> key_lt(
                    #[trigger] dest@[d].sort_key(),
                    #[trigger] rem@[q].sort_key(),
                ),
        decreases rem@.len(),
    {
        broadcast use vstd::seq_lib::group_to_multiset_ensures;

        let m = min_key_position(&rem);
        let ghost r0 = rem@;
        let ghost d0 = dest@;
        let x = rem.remove(m);
        dest.push(x);
        proof {
            assert(dest@.to_multiset().add(rem@.to_multiset()) =~= orig.to_multiset());
            let km = r0[m as int].sort_key();
            assert forall|q: int| 0 <= q < rem@.len() implies #[trigger] rem@[q] == r0[if q >= m {
                q + 1
            } else {
                q
            }] by {}
            if u {
                assert forall|q: int| 0 <= q < r0.len() && q != m implies key_lt(km, #[trigger] r0[q].sort_key()) by {
                    lemma_key_lt_total(km, r0[q].sort_key());
                }
                assert forall|i: int, j: int|
                    0 <= i < rem@.len() && 0 <= j < rem@.len() && i != j implies #[trigger] rem@[i].sort_key()
                    != #[trigger] rem@[j].sort_key() by {
                    assert(rem@[i] == r0[if i >= m { i + 1 } else { i }]);
                    assert(rem@[j] == r0[if j >= m { j + 1 } else { j }]);
                }
            }
            assert forall|d: int, q: int| 0 <= d < dest@.len() && 0 <= q < rem@.len() implies !key_lt(
                #[trigger] rem@[q].sort_key(),
                #[trigger] dest@[d].sort_key(),
            ) by {
                assert(rem@[q] == r0[if q >= m { q + 1 } else { q }]);
                if d < d0.len() {
                    assert(dest@[d] == d0[d]);
                }
            }
            if u {
                assert forall|d: int, q: int| 0 <= d < dest@.len() && 0 <= q < rem@.len() implies key_lt(
                    #[trigger] dest@[d].sort_key(),
                    #[trigger] rem@[q].sort_key(),
                ) by {
                    assert(rem@[q] == r0[if q >= m { q + 1 } else { q }]);
                    if d < d0.len() {
                        assert(dest@[d] == d0[d]);
                    }
                }
                assert forall|i: int, j: int| 0 <= i < j < dest@.len() implies key_lt(
                    #[trigger] dest@[i].sort_key(),
                    #[trigger] dest@[j].sort_key(),
                ) by {
                    assert(dest@[i] == d0[i]);
                    if j < d0.len() {
                        assert(dest@[j] == d0[j]);
                    } else {
                        assert(dest@[j] == r0[m as int]);
                    }
                }
            }
            assert forall|i: int, j: int| 0 <= i < j < dest@.len() implies !key_lt(
                #[trigger] dest@[j].sort_key(),
                #[trigger] dest@[i].sort_key(),
            ) by {
                assert(dest@[i] == d0[i]);
                if j < d0.len() {
                    assert(dest@[j] == d0[j]);
                } else {
                    assert(dest@[j] == r0[m as int]);
                }
            }
        }
    }
    assert(rem@.to_multiset() =~= vstd::multiset::Multiset::empty());
    assert(dest@.to_multiset() =~= orig.to_multiset());
    *v = dest;
}

} // verus!
