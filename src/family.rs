//! The family of a name: the links that follow from names alone.
use vstd::prelude::*;
use crate::name::{Name, Type, type_text, auto_partof_of, key_of, lemma_last_dash, parent_of, type_of, valid_name};
use crate::names::{Names, has_key};

verus! {

/// Whether `x` is linked to `n` by convention: it has the key of `n`'s
/// parent or of `n`'s auto-partof.
pub open spec fn is_auto_of(n: Seq<char>, x: Seq<char>) -> bool {
    ||| (parent_of(n) is Some && key_of(x) == key_of(parent_of(n)->Some_0))
    ||| (auto_partof_of(n) is Some && key_of(x) == key_of(auto_partof_of(n)->Some_0))
}

/// The links of `n` by convention that name a member of the universe `u`.
pub open spec fn present_autos(n: Seq<char>, u: Seq<Seq<char>>) -> Set<Seq<char>> {
    Set::new(
        |x: Seq<char>|
            (parent_of(n) == Some(x) || auto_partof_of(n) == Some(x)) && has_key(u, key_of(x)),
    )
}

/// A valid name's parent is strictly shorter than it, and a requirement has
/// no auto-partof.
pub proof fn lemma_family_shape(n: Seq<char>)
    requires
        valid_name(n),
    ensures
        parent_of(n) is Some ==> parent_of(n)->Some_0.len() < n.len(),
        type_of(n) == Some(Type::REQ) ==> auto_partof_of(n) is None,
{
    lemma_last_dash(n);
}

proof fn lemma_parent_auto_differ(n: Seq<char>)
    requires
        valid_name(n),
        parent_of(n) is Some,
        auto_partof_of(n) is Some,
    ensures
        key_of(parent_of(n)->Some_0) != key_of(auto_partof_of(n)->Some_0),
{
    let p = parent_of(n)->Some_0;
    let a = auto_partof_of(n)->Some_0;
    lemma_last_dash(n);
    let t = type_of(n)->Some_0;
    let u = if t == Type::SPC {
        Type::REQ
    } else {
        Type::SPC
    };
    assert(a.subrange(0, 3) =~= type_text(u));
    assert(p.subrange(0, 3) =~= n.subrange(0, 3));
    assert(key_of(type_text(Type::REQ)) =~= seq!['R' as u32, 'E' as u32, 'Q' as u32]);
    assert(key_of(type_text(Type::SPC)) =~= seq!['S' as u32, 'P' as u32, 'C' as u32]);
    assert(key_of(type_text(Type::TST)) =~= seq!['T' as u32, 'S' as u32, 'T' as u32]);
    if key_of(p) == key_of(a) {
        assert(key_of(p.subrange(0, 3)) =~= key_of(p).subrange(0, 3));
        assert(key_of(a.subrange(0, 3)) =~= key_of(a).subrange(0, 3));
        assert(key_of(type_text(t)) == key_of(type_text(u)));
    }
}

/// Remove from `names` the parent and the auto-partof of `name`.
pub fn strip_auto_partofs(name: &Name, names: &mut Names)
    requires
        old(names).wf(),
    ensures
        final(names).wf(),
        final(names)@.to_set() == old(names)@.to_set().filter(|x: Seq<char>| !is_auto_of(name@, x)),
{
    let ghost s0 = names@.to_set();
    let p = name.parent();
    let a = name.auto_partof();
    if let Some(p) = &p {
        names.remove(p);
    }
    if let Some(a) = &a {
        names.remove(a);
    }
    assert(names@.to_set() =~= s0.filter(|x: Seq<char>| !is_auto_of(name@, x)));
}

/// For each name of the universe, its links by convention that name a
/// member of the universe: one entry per name, in the universe's order.
pub fn auto_partofs(names: &Names) -> (r: Vec<(Name, Names)>)
    requires
        names.wf(),
    ensures
        r@.len() == names@.len(),
        forall|i: int|
            0 <= i < r@.len() ==> {
                &&& (#[trigger] r@[i]).0@ == names@[i]
                &&& r@[i].1.wf()
                &&& r@[i].1@.to_set() == present_autos(names@[i], names@)
            },
{
    let mut out: Vec<(Name, Names)> = Vec::new();
    let mut i: usize = 0;
    while i < names.len()
        invariant
            names.wf(),
            i <= names@.len(),
            out@.len() == i,
            forall|j: int|
                0 <= j < i ==> {
                    &&& (#[trigger] out@[j]).0@ == names@[j]
                    &&& out@[j].1.wf()
                    &&& out@[j].1@.to_set() == present_autos(names@[j], names@)
                },
        decreases names@.len() - i,
    {
        let name = names.get(i);
        let mut auto = Names::new();
        let ghost n = name@;
        if let Some(parent) = name.parent() {
            if names.contains(&parent) {
                auto.insert(parent);
            }
        }
        let ghost s1 = auto@.to_set();
        assert(s1 =~= Set::new(|x: Seq<char>| parent_of(n) == Some(x) && has_key(names@, key_of(x))));
        if let Some(partof) = name.auto_partof() {
            if names.contains(&partof) {
                proof {
                    if has_key(auto@, key_of(partof@)) {
                        let j = choose|j: int| 0 <= j < auto@.len() && key_of(auto@[j]) == key_of(partof@);
                        assert(s1.contains(auto@[j]));
                        lemma_parent_auto_differ(n);
                    }
                }
                auto.insert(partof);
            }
        }
        assert(auto@.to_set() =~= present_autos(n, names@));
        out.push((name.clone(), auto));
        i = i + 1;
    }
    out
}

} // verus!
