//! Sets of names, kept in the order of their folded keys. The order makes a
//! set canonical: two sets of the same names are the same sequence
//! (`lemma_sorted_unique`), which the identity hash and the clean form rely
//! on.
use vstd::prelude::*;
use crate::name::{Name, key_of, valid_name};
use crate::order::{compare_names, key_lt, lemma_key_lt_asym, lemma_key_lt_irrefl, lemma_key_lt_total, lemma_key_lt_trans};

verus! {

/// Strictly increasing folded keys: sorted, and no two names equal.
pub open spec fn sorted_names(s: Seq<Seq<char>>) -> bool {
    forall|i: int, j: int| 0 <= i < j < s.len() ==> key_lt(key_of(#[trigger] s[i]), key_of(#[trigger] s[j]))
}

/// A sorted sequence of valid names.
pub open spec fn names_wf(s: Seq<Seq<char>>) -> bool {
    &&& sorted_names(s)
    &&& forall|i: int| 0 <= i < s.len() ==> valid_name(#[trigger] s[i])
}

/// Whether some name of `s` has the folded key `k`.
pub open spec fn has_key(s: Seq<Seq<char>>, k: Seq<u32>) -> bool {
    exists|i: int| 0 <= i < s.len() && key_of(#[trigger] s[i]) == k
}

/// A key found among some names is found among more.
pub proof fn lemma_has_key_subset(s: Seq<Seq<char>>, t: Seq<Seq<char>>, k: Seq<u32>)
    requires
        s.to_set().subset_of(t.to_set()),
        has_key(s, k),
    ensures
        has_key(t, k),
{
    let i = choose|i: int| 0 <= i < s.len() && key_of(s[i]) == k;
    assert(s.to_set().contains(s[i]));
    let j = choose|j: int| 0 <= j < t.len() && t[j] == s[i];
    assert(key_of(t[j]) == k);
}

/// Two sorted sequences that hold the same names are equal.
pub proof fn lemma_sorted_unique(s: Seq<Seq<char>>, t: Seq<Seq<char>>)
    requires
        sorted_names(s),
        sorted_names(t),
        s.to_set() == t.to_set(),
    ensures
        s == t,
    decreases s.len(),
{
    if s.len() == 0 {
        if t.len() > 0 {
            assert(t.to_set().contains(t[0]));
        }
        assert(s =~= t);
    } else {
        assert(s.to_set().contains(s[0]));
        if t.len() == 0 {
            assert(false);
        }
        assert(t.to_set().contains(t[0]));
        let j = choose|j: int| 0 <= j < t.len() && t[j] == s[0];
        let i = choose|i: int| 0 <= i < s.len() && s[i] == t[0];
        if j > 0 {
            assert(key_lt(key_of(t[0]), key_of(t[j])));
            if i == 0 {
                lemma_key_lt_irrefl(key_of(t[0]));
            } else {
                assert(key_lt(key_of(s[0]), key_of(s[i])));
                lemma_key_lt_asym(key_of(t[0]), key_of(s[0]));
            }
        }
        assert(s[0] == t[0]);
        let s1 = s.drop_first();
        let t1 = t.drop_first();
        assert forall|x| s1.to_set().contains(x) implies t1.to_set().contains(x) by {
            let a = choose|a: int| 0 <= a < s1.len() && s1[a] == x;
            assert(s.to_set().contains(s[a + 1]));
            let b = choose|b: int| 0 <= b < t.len() && t[b] == x;
            if b == 0 {
                assert(key_lt(key_of(s[0]), key_of(s[a + 1])));
                lemma_key_lt_irrefl(key_of(s[0]));
            }
            assert(t1[b - 1] == x);
        }
        assert forall|x| t1.to_set().contains(x) implies s1.to_set().contains(x) by {
            let a = choose|a: int| 0 <= a < t1.len() && t1[a] == x;
            assert(t.to_set().contains(t[a + 1]));
            let b = choose|b: int| 0 <= b < s.len() && s[b] == x;
            if b == 0 {
                assert(key_lt(key_of(t[0]), key_of(t[a + 1])));
                lemma_key_lt_irrefl(key_of(t[0]));
            }
            assert(s1[b - 1] == x);
        }
        assert(s1.to_set() =~= t1.to_set());
        lemma_sorted_unique(s1, t1);
        assert(s =~= seq![s[0]] + s1);
        assert(t =~= seq![t[0]] + t1);
    }
}

/// A set of names, ordered by folded key, with no two of equal key.
#[derive(Debug)]
pub struct Names {
    items: Vec<Name>,
}

impl View for Names {
    type V = Seq<Seq<char>>;

    closed spec fn view(&self) -> Seq<Seq<char>> {
        self.items@.map_values(|n: Name| n@)
    }
}

impl Clone for Names {
    fn clone(&self) -> (r: Self)
        ensures
            r@ == self@,
    {
        let mut items: Vec<Name> = Vec::new();
        let mut i: usize = 0;
        while i < self.items.len()
            invariant
                i <= self.items@.len(),
                items@.len() == i,
                self@.len() == self.items@.len(),
                forall|j: int| 0 <= j < i ==> #[trigger] items@[j]@ == self@[j],
            decreases self.items@.len() - i,
        {
            assert(self@[i as int] == self.items@[i as int]@);
            items.push(self.items[i].clone());
            i = i + 1;
        }
        let r = Names { items };
        assert(r@ =~= self@);
        r
    }
}

impl Names {
    /// Well-formed: sorted by key, of valid names.
    pub open spec fn wf(&self) -> bool {
        names_wf(self@)
    }

    /// The empty set.
    pub fn new() -> (r: Names)
        ensures
            r@ == Seq::<Seq<char>>::empty(),
            r.wf(),
    {
        let r = Names { items: Vec::new() };
        assert(r@ =~= Seq::<Seq<char>>::empty());
        r
    }

    /// The number of names.
    pub fn len(&self) -> (r: usize)
        ensures
            r == self@.len(),
    {
        self.items.len()
    }

    /// Whether the set is empty.
    pub fn is_empty(&self) -> (r: bool)
        ensures
            r == (self@.len() == 0),
    {
        self.items.len() == 0
    }

    /// The `i`-th name in key order.
    pub fn get(&self, i: usize) -> (r: &Name)
        requires
            i < self@.len(),
        ensures
            r@ == self@[i as int],
    {
        &self.items[i]
    }

    /// The position of the name with the key of `n`, if any.
    pub fn find(&self, n: &Name) -> (r: Option<usize>)
        ensures
            match r {
                Some(i) => i < self@.len() && key_of(self@[i as int]) == key_of(n@),
                None => !has_key(self@, key_of(n@)),
            },
    {
        let mut i: usize = 0;
        while i < self.items.len()
            invariant
                i <= self@.len(),
                self@.len() == self.items@.len(),
                forall|j: int| 0 <= j < i ==> key_of(#[trigger] self@[j]) != key_of(n@),
            decreases self.items@.len() - i,
        {
            if compare_names(&self.items[i], n) == 0 {
                return Some(i);
            }
            i = i + 1;
        }
        None
    }

    /// Whether a name of the key of `n` is in the set.
    pub fn contains(&self, n: &Name) -> (r: bool)
        ensures
            r == has_key(self@, key_of(n@)),
    {
        self.find(n).is_some()
    }

    /// Add `n` unless a name of its key is there already; say whether it was
    /// added.
    pub fn insert(&mut self, n: Name) -> (r: bool)
        requires
            old(self).wf(),
        ensures
            final(self).wf(),
            r == !has_key(old(self)@, key_of(n@)),
            !r ==> final(self)@ == old(self)@,
            r ==> exists|p: int|
                0 <= p <= old(self)@.len() && final(self)@ == old(self)@.insert(p, n@),
            r ==> final(self)@.to_set() == old(self)@.to_set().insert(n@),
    {
        proof {
            use_type_invariant(&n);
        }
        let ghost s = self@;
        let mut p: usize = 0;
        while p < self.items.len() && compare_names(&self.items[p], &n) < 0
            invariant
                p <= s.len(),
                s == self@,
                s.len() == self.items@.len(),
                forall|j: int| 0 <= j < p ==> key_lt(key_of(#[trigger] s[j]), key_of(n@)),
            decreases s.len() - p,
        {
            p = p + 1;
        }
        if p < self.items.len() && compare_names(&self.items[p], &n) == 0 {
            assert(key_of(s[p as int]) == key_of(n@));
            return false;
        }
        let ghost k = key_of(n@);
        assert(!has_key(s, k)) by {
            if has_key(s, k) {
                let j = choose|j: int| 0 <= j < s.len() && key_of(s[j]) == k;
                if j < p {
                    lemma_key_lt_irrefl(k);
                } else {
                    lemma_key_lt_total(key_of(s[p as int]), k);
                    if j > p {
                        assert(key_lt(key_of(s[p as int]), key_of(s[j])));
                        lemma_key_lt_asym(k, key_of(s[p as int]));
                    }
                }
            }
        }
        if p < self.items.len() {
            proof {
                lemma_key_lt_total(key_of(s[p as int]), k);
            }
        }
        let ghost t = s.insert(p as int, n@);
        assert(names_wf(t)) by {
            assert forall|i: int, j: int| 0 <= i < j < t.len() implies key_lt(
                key_of(#[trigger] t[i]),
                key_of(#[trigger] t[j]),
            ) by {
                if j == p {
                } else if i == p {
                    assert(t[j] == s[j - 1]);
                    if j - 1 > p {
                        assert(key_lt(key_of(s[p as int]), key_of(s[j - 1])));
                        lemma_key_lt_trans(k, key_of(s[p as int]), key_of(s[j - 1]));
                    }
                } else if i < p && j > p {
                    assert(t[j] == s[j - 1]);
                    assert(key_lt(key_of(s[i]), k));
                    assert(key_lt(key_of(s[i]), key_of(s[p as int])));
                    if j - 1 > p {
                        assert(key_lt(key_of(s[p as int]), key_of(s[j - 1])));
                        lemma_key_lt_trans(key_of(s[i]), key_of(s[p as int]), key_of(s[j - 1]));
                    }
                } else if i > p {
                    assert(t[i] == s[i - 1]);
                    assert(t[j] == s[j - 1]);
                }
            }
            assert forall|i: int| 0 <= i < t.len() implies valid_name(#[trigger] t[i]) by {
                if i > p {
                    assert(t[i] == s[i - 1]);
                }
            }
        }
        self.items.insert(p, n);
        assert(self@ =~= t);
        assert(t.to_set() =~= s.to_set().insert(n@)) by {
            assert forall|x| t.to_set().contains(x) implies s.to_set().insert(n@).contains(x) by {
                let a = choose|a: int| 0 <= a < t.len() && t[a] == x;
                if a < p {
                    assert(s[a] == x);
                } else if a > p {
                    assert(s[a - 1] == x);
                }
            }
            assert forall|x| s.to_set().insert(n@).contains(x) implies t.to_set().contains(x) by {
                if x == n@ {
                    assert(t[p as int] == x);
                } else {
                    let a = choose|a: int| 0 <= a < s.len() && s[a] == x;
                    if a < p {
                        assert(t[a] == x);
                    } else {
                        assert(t[a + 1] == x);
                    }
                }
            }
        }
        true
    }

    /// Remove the name of the key of `n`, if there is one; say whether one
    /// was removed.
    pub fn remove(&mut self, n: &Name) -> (r: bool)
        requires
            old(self).wf(),
        ensures
            final(self).wf(),
            r == has_key(old(self)@, key_of(n@)),
            !r ==> final(self)@ == old(self)@,
            r ==> exists|p: int|
                0 <= p < old(self)@.len() && key_of(old(self)@[p]) == key_of(n@) && final(self)@
                    == old(self)@.remove(p),
            final(self)@.to_set() == old(self)@.to_set().filter(|x: Seq<char>| key_of(x) != key_of(n@)),
    {
        let ghost s = self@;
        match self.find(n) {
            None => {
                assert(s.to_set() =~= s.to_set().filter(|x: Seq<char>| key_of(x) != key_of(n@))) by {
                    assert forall|x| s.to_set().contains(x) implies key_of(x) != key_of(n@) by {
                        let a = choose|a: int| 0 <= a < s.len() && s[a] == x;
                    }
                }
                false
            },
            Some(p) => {
                let ghost t = s.remove(p as int);
                assert(names_wf(t)) by {
                    assert forall|i: int, j: int| 0 <= i < j < t.len() implies key_lt(
                        key_of(#[trigger] t[i]),
                        key_of(#[trigger] t[j]),
                    ) by {
                        if i >= p {
                            assert(t[i] == s[i + 1]);
                        }
                        if j >= p {
                            assert(t[j] == s[j + 1]);
                        }
                    }
                    assert forall|i: int| 0 <= i < t.len() implies valid_name(#[trigger] t[i]) by {
                        if i >= p {
                            assert(t[i] == s[i + 1]);
                        }
                    }
                }
                self.items.remove(p);
                assert(self@ =~= t);
                let ghost k = key_of(n@);
                assert(t.to_set() =~= s.to_set().filter(|x: Seq<char>| key_of(x) != k)) by {
                    assert forall|x| t.to_set().contains(x) implies s.to_set().filter(
                        |x: Seq<char>| key_of(x) != k,
                    ).contains(x) by {
                        let a = choose|a: int| 0 <= a < t.len() && t[a] == x;
                        if a < p {
                            assert(s[a] == x);
                            assert(key_lt(key_of(s[a]), key_of(s[p as int])));
                            lemma_key_lt_irrefl(k);
                        } else {
                            assert(s[a + 1] == x);
                            assert(key_lt(key_of(s[p as int]), key_of(s[a + 1])));
                            lemma_key_lt_irrefl(k);
                        }
                    }
                    assert forall|x| s.to_set().filter(|x: Seq<char>| key_of(x) != k).contains(
                        x,
                    ) implies t.to_set().contains(x) by {
                        let a = choose|a: int| 0 <= a < s.len() && s[a] == x;
                        if a < p {
                            assert(t[a] == x);
                        } else if a > p {
                            assert(t[a - 1] == x);
                        }
                    }
                }
                true
            },
        }
    }
}

} // verus!
