//! Assembly of the project graph from intermediate artifacts.
use vstd::prelude::*;
use vstd::multiset::Multiset;
use crate::family::{auto_partofs, is_auto_of, present_autos};
use crate::im::{ArtifactIm, ArtifactImView, HashIm, clean_of, hash_of, lemma_strip_set, lemma_strip_wf, strip_seq};
use crate::implemented::{Impl, ImplCode, ImplCodeView, ImplView, SubName, done_reason, statistics_of};
use crate::name::{Name, key_of};
use crate::names::{Names, has_key, lemma_sorted_unique, names_wf};
use crate::order::{compare_names, key_lt, lemma_key_lt_irrefl, lemma_key_lt_trans};
use crate::subnames::{parse_subnames, subnames_of};
use crate::sort::{SortKey, sort_by_key, sorted_by_key, strictly_sorted_by_key, keys_distinct};

verus! {

/// A ratio `value / count`, zero where `count` is zero.
#[derive(Clone, Copy, Debug, PartialEq, Eq, Structural)]
pub struct Ratio {
    pub value: usize,
    pub count: usize,
}

/// How complete an artifact is: its specification and test ratios. Each is
/// the artifact's own contribution (`statistics_of`); nothing is rolled up
/// through its parts.
#[derive(Clone, Copy, Debug, PartialEq, Eq, Structural)]
pub struct Completed {
    pub spc: Ratio,
    pub tst: Ratio,
}

/// Whether `r` is at least `num / den`, a ratio with no count being zero.
pub open spec fn ratio_at_least(r: Ratio, num: int, den: int) -> bool {
    r.count > 0 && r.value * den >= num * r.count
}

/// The band of a specification ratio: 3 at 100%, 2 from 70%, 1 from 40%,
/// else 0.
pub open spec fn spc_points_of(r: Ratio) -> u8 {
    if ratio_at_least(r, 1, 1) {
        3
    } else if ratio_at_least(r, 7, 10) {
        2
    } else if ratio_at_least(r, 4, 10) {
        1
    } else {
        0
    }
}

/// The band of a test ratio: 2 at 100%, 1 from 50%, else 0.
pub open spec fn tst_points_of(r: Ratio) -> u8 {
    if ratio_at_least(r, 1, 1) {
        2
    } else if ratio_at_least(r, 1, 2) {
        1
    } else {
        0
    }
}

fn at_least(r: Ratio, num: u8, den: u8) -> (b: bool)
    ensures
        b == ratio_at_least(r, num as int, den as int),
{
    let v = r.value as u128;
    let c = r.count as u128;
    let d = den as u128;
    let n = num as u128;
    assert(v * d <= 0xffff_ffff_ffff_ffffu128 * 255) by (nonlinear_arith)
        requires
            v <= 0xffff_ffff_ffff_ffffu128,
            d <= 255,
    ;
    assert(n * c <= 0xffff_ffff_ffff_ffffu128 * 255) by (nonlinear_arith)
        requires
            c <= 0xffff_ffff_ffff_ffffu128,
            n <= 255,
    ;
    r.count > 0 && v * d >= n * c
}

impl Completed {
    /// The band of the specification ratio.
    pub fn spc_points(&self) -> (r: u8)
        ensures
            r == spc_points_of(self.spc),
    {
        if at_least(self.spc, 1, 1) {
            3
        } else if at_least(self.spc, 7, 10) {
            2
        } else if at_least(self.spc, 4, 10) {
            1
        } else {
            0
        }
    }

    /// The band of the test ratio.
    pub fn tst_points(&self) -> (r: u8)
        ensures
            r == tst_points_of(self.tst),
    {
        if at_least(self.tst, 1, 1) {
            2
        } else if at_least(self.tst, 1, 2) {
            1
        } else {
            0
        }
    }
}

/// The paths a project was loaded from.
#[derive(Debug)]
pub struct ProjectPaths {
    pub base: String,
    pub code_paths: Vec<String>,
    pub exclude_code_paths: Vec<String>,
    pub artifact_paths: Vec<String>,
    pub exclude_artifact_paths: Vec<String>,
}

/// An artifact of the assembled graph.
#[derive(Debug)]
pub struct Artifact {
    /// The identity hash of its clean intermediate form.
    pub id: HashIm,
    pub name: Name,
    pub file: String,
    /// The links it was given and those that follow from names.
    pub partof: Names,
    /// The artifacts that link to it.
    pub parts: Names,
    pub completed: Completed,
    pub text: String,
    pub impl_: Impl,
    pub subnames: Vec<SubName>,
}

impl Artifact {
    /// Well-formed: both link sets are sorted sets of names.
    pub open spec fn wf(&self) -> bool {
        self.partof.wf() && self.parts.wf()
    }

    /// The intermediate form this artifact carries, before cleaning.
    pub open spec fn im_view(&self) -> ArtifactImView {
        ArtifactImView {
            name: self.name@,
            file: self.file@,
            partof: self.partof@,
            done: done_reason(self.impl_@),
            text: self.text@,
        }
    }
}

impl ArtifactIm {
    /// The clean intermediate form of an artifact: its `Done` reason becomes
    /// the done marker, and derived data is dropped.
    pub fn from_artifact(art: &Artifact) -> (r: ArtifactIm)
        requires
            art.wf(),
        ensures
            r.wf(),
            r@ == clean_of(art.im_view()),
    {
        let done = match &art.impl_ {
            Impl::Done(d) => Some(d.clone()),
            _ => None,
        };
        let mut out = ArtifactIm {
            name: art.name.clone(),
            file: art.file.clone(),
            partof: art.partof.clone(),
            done,
            text: art.text.clone(),
        };
        assert(out@ == art.im_view());
        out.clean();
        out
    }
}

/// The names of a sequence of intermediate forms.
pub open spec fn im_names(raw: Seq<ArtifactImView>) -> Seq<Seq<char>> {
    raw.map_values(|a: ArtifactImView| a.name)
}

/// No two names of `s` have the same key.
pub open spec fn keys_unique(s: Seq<Seq<char>>) -> bool {
    forall|i: int, j: int| 0 <= i < s.len() && 0 <= j < s.len() && i != j ==> key_of(s[i]) != key_of(
        s[j],
    )
}

/// The code implementation recorded for key `k`: the first entry of that key.
pub open spec fn code_for(code: Seq<(Seq<char>, ImplCodeView)>, k: Seq<u32>) -> Option<ImplCodeView>
    decreases code.len(),
{
    if code.len() == 0 {
        None
    } else if key_of(code[0].0) == k {
        Some(code[0].1)
    } else {
        code_for(code.drop_first(), k)
    }
}

/// The implementation state of an artifact: its done marker wins, then its
/// code implementation, else none.
pub open spec fn impl_for(m: ArtifactImView, code: Seq<(Seq<char>, ImplCodeView)>) -> ImplView {
    match m.done {
        Some(d) => ImplView::Done(d),
        None => match code_for(code, key_of(m.name)) {
            Some(c) => ImplView::Code(c),
            None => ImplView::NotImpl,
        },
    }
}

/// The code implementations as values.
pub open spec fn code_view(code: Seq<(Name, ImplCode)>) -> Seq<(Seq<char>, ImplCodeView)> {
    code.map_values(|e: (Name, ImplCode)| (e.0@, e.1@))
}

/// The completion of an artifact from its leaf contribution.
pub open spec fn completed_of(c: Completed, imp: ImplView, subs: Seq<Seq<char>>) -> bool {
    let s = statistics_of(imp, subs);
    &&& c.spc.count as nat == s.0
    &&& c.spc.value as nat == s.1
    &&& c.tst.count as nat == s.2
    &&& c.tst.value as nat == s.3
}

/// `X` is among `Y`'s parts exactly when `Y` is among `X`'s partof, by key.
pub open spec fn parts_inverse(arts: Seq<Artifact>) -> bool {
    forall|i: int, j: int|
        0 <= i < arts.len() && 0 <= j < arts.len() ==> (has_key(
            #[trigger] arts[i].parts@,
            key_of(arts[j].name@),
        ) <==> has_key(#[trigger] arts[j].partof@, key_of(arts[i].name@)))
}

/// What assembly makes of artifact `i`.
pub open spec fn assembled_one(
    arts: Seq<Artifact>,
    raw: Seq<ArtifactImView>,
    code: Seq<(Seq<char>, ImplCodeView)>,
    i: int,
) -> bool {
    let a = arts[i];
    let m = raw[i];
    &&& a.wf()
    &&& a.name@ == m.name
    &&& a.file@ == m.file
    &&& a.text@ == m.text
    &&& m.partof.to_set().subset_of(a.partof@.to_set())
    &&& a.partof@.to_set().subset_of(m.partof.to_set() + present_autos(m.name, im_names(raw)))
    &&& forall|k: Seq<u32>|
        has_key(a.partof@, k) <==> (has_key(m.partof, k) || exists|x: Seq<char>|
            present_autos(m.name, im_names(raw)).contains(x) && key_of(x) == k)
    &&& a.parts@.to_set() == Set::new(
        |x: Seq<char>|
            exists|j: int|
                0 <= j < raw.len() && x == raw[j].name && has_key(arts[j].partof@, key_of(m.name)),
    )
    &&& a.impl_@ == impl_for(m, code)
    &&& a.subnames@.map_values(|s: SubName| s@) == subnames_of(m.text)
    &&& completed_of(a.completed, a.impl_@, subnames_of(m.text))
    &&& a.id.0@ == hash_of(clean_of(a.im_view()))
    &&& clean_of(a.im_view()) == clean_of(m)
}

/// The artifacts `arts` are what assembly makes of `raw` and `code`.
pub open spec fn assembled(
    arts: Seq<Artifact>,
    raw: Seq<ArtifactImView>,
    code: Seq<(Seq<char>, ImplCodeView)>,
) -> bool {
    &&& arts.len() == raw.len()
    &&& forall|i: int| 0 <= i < arts.len() ==> assembled_one(arts, raw, code, i)
    &&& parts_inverse(arts)
}

proof fn lemma_has_key_same_set(s: Seq<Seq<char>>, t: Seq<Seq<char>>, k: Seq<u32>)
    requires
        s.to_set() == t.to_set(),
    ensures
        has_key(s, k) == has_key(t, k),
{
    if has_key(s, k) {
        let i = choose|i: int| 0 <= i < s.len() && key_of(s[i]) == k;
        assert(t.to_set().contains(s[i]));
    }
    if has_key(t, k) {
        let i = choose|i: int| 0 <= i < t.len() && key_of(t[i]) == k;
        assert(s.to_set().contains(t[i]));
    }
}

/// The names of `raw` as a sorted set.
fn universe_of(raw: &Vec<ArtifactIm>) -> (r: Names)
    requires
        keys_unique(im_names(raw@.map_values(|a: ArtifactIm| a@))),
    ensures
        r.wf(),
        r@.to_set() == im_names(raw@.map_values(|a: ArtifactIm| a@)).to_set(),
{
    let ghost ns = im_names(raw@.map_values(|a: ArtifactIm| a@));
    let mut u = Names::new();
    let mut i: usize = 0;
    while i < raw.len()
        invariant
            i <= raw@.len(),
            ns == im_names(raw@.map_values(|a: ArtifactIm| a@)),
            keys_unique(ns),
            u.wf(),
            u@.to_set() == ns.subrange(0, i as int).to_set(),
        decreases raw@.len() - i,
    {
        let n = raw[i].name.clone();
        assert(ns[i as int] == n@);
        proof {
            if has_key(u@, key_of(n@)) {
                let q = choose|q: int| 0 <= q < u@.len() && key_of(u@[q]) == key_of(n@);
                assert(ns.subrange(0, i as int).to_set().contains(u@[q]));
                let j = choose|j: int| 0 <= j < i && ns.subrange(0, i as int)[j] == u@[q];
                assert(ns[j] == u@[q]);
            }
        }
        u.insert(n);
        assert(ns.subrange(0, i + 1) =~= ns.subrange(0, i as int).push(ns[i as int]));
        proof {
            crate::im::lemma_push_to_set(ns.subrange(0, i as int), ns[i as int]);
        }
        i = i + 1;
    }
    assert(ns.subrange(0, i as int) =~= ns);
    u
}

/// The position of the code implementation of `n`, if any.
fn find_code(code: &Vec<(Name, ImplCode)>, n: &Name) -> (r: Option<usize>)
    ensures
        match r {
            Some(c) => c < code@.len() && code_for(code_view(code@), key_of(n@)) == Some(
                code@[c as int].1@,
            ),
            None => code_for(code_view(code@), key_of(n@)) is None,
        },
{
    let ghost cv = code_view(code@);
    let mut i: usize = 0;
    assert(cv.subrange(0, cv.len() as int) =~= cv);
    while i < code.len()
        invariant
            i <= code@.len(),
            cv == code_view(code@),
            code_for(cv, key_of(n@)) == code_for(cv.subrange(i as int, cv.len() as int), key_of(n@)),
        decreases code@.len() - i,
    {
        let ghost rest = cv.subrange(i as int, cv.len() as int);
        assert(rest[0] == cv[i as int]);
        if compare_names(&code[i].0, n) == 0 {
            return Some(i);
        }
        assert(rest.drop_first() =~= cv.subrange(i + 1, cv.len() as int));
        i = i + 1;
    }
    None
}

/// `explicit` with the names of `autos` added where their key is missing.
fn merge_autos(explicit: &Names, autos: &Names) -> (r: Names)
    requires
        explicit.wf(),
        autos.wf(),
    ensures
        r.wf(),
        explicit@.to_set().subset_of(r@.to_set()),
        r@.to_set().subset_of(explicit@.to_set() + autos@.to_set()),
        forall|k: Seq<u32>| has_key(r@, k) <==> (has_key(explicit@, k) || has_key(autos@, k)),
{
    let mut r = explicit.clone();
    let mut i: usize = 0;
    while i < autos.len()
        invariant
            i <= autos@.len(),
            r.wf(),
            autos.wf(),
            explicit@.to_set().subset_of(r@.to_set()),
            r@.to_set().subset_of(explicit@.to_set() + autos@.to_set()),
            forall|k: Seq<u32>|
                has_key(r@, k) <==> (has_key(explicit@, k) || has_key(autos@.subrange(0, i as int), k)),
        decreases autos@.len() - i,
    {
        let x = autos.get(i).clone();
        let ghost pre = r@;
        let ghost xv = x@;
        assert(xv == autos@[i as int]);
        r.insert(x);
        proof {
            assert(autos@.to_set().contains(autos@[i as int]));
            let s0 = autos@.subrange(0, i as int);
            let s1 = autos@.subrange(0, i + 1);
            assert forall|k: Seq<u32>| has_key(s1, k) <==> (has_key(s0, k) || key_of(xv) == k) by {
                if has_key(s1, k) {
                    let q = choose|q: int| 0 <= q < s1.len() && key_of(s1[q]) == k;
                    if q < i {
                        assert(s0[q] == s1[q]);
                    }
                }
                if has_key(s0, k) {
                    let q = choose|q: int| 0 <= q < s0.len() && key_of(s0[q]) == k;
                    assert(s1[q] == s0[q]);
                }
                if key_of(xv) == k {
                    assert(s1[i as int] == xv);
                }
            }
            assert forall|k: Seq<u32>| has_key(r@, k) <==> (has_key(pre, k) || key_of(xv) == k) by {
                if has_key(r@, k) && !has_key(pre, k) {
                    let q = choose|q: int| 0 <= q < r@.len() && key_of(r@[q]) == k;
                    assert(r@.to_set().contains(r@[q]));
                    if r@[q] != xv {
                        assert(pre.to_set().contains(r@[q]));
                        let z = choose|z: int| 0 <= z < pre.len() && pre[z] == r@[q];
                        assert(key_of(pre[z]) == k);
                    }
                }
                if has_key(pre, k) {
                    let q = choose|q: int| 0 <= q < pre.len() && key_of(pre[q]) == k;
                    assert(pre.to_set().contains(pre[q]));
                    assert(r@.to_set().contains(pre[q]));
                    let z = choose|z: int| 0 <= z < r@.len() && r@[z] == pre[q];
                    assert(key_of(r@[z]) == k);
                }
                if key_of(xv) == k && !has_key(pre, k) {
                    assert(r@.to_set().contains(xv));
                    let z = choose|z: int| 0 <= z < r@.len() && r@[z] == xv;
                    assert(key_of(r@[z]) == k);
                }
            }
            assert forall|k: Seq<u32>|
                has_key(r@, k) <==> (has_key(explicit@, k) || has_key(s1, k)) by {
                assert(has_key(pre, k) <==> (has_key(explicit@, k) || has_key(s0, k)));
            }
        }
        i = i + 1;
    }
    assert(autos@.subrange(0, i as int) =~= autos@);
    r
}

/// The names of the artifacts whose full partof holds the key of `n`, as a
/// sorted set.
fn parts_of(n: &Name, raw: &Vec<ArtifactIm>, fulls: &Vec<Names>) -> (r: Names)
    requires
        raw@.len() == fulls@.len(),
        keys_unique(im_names(raw@.map_values(|a: ArtifactIm| a@))),
    ensures
        r.wf(),
        r@.to_set() == Set::new(
            |x: Seq<char>|
                exists|j: int|
                    0 <= j < raw@.len() && x == raw@[j].name@ && has_key(fulls@[j]@, key_of(n@)),
        ),
{
    let ghost ns = im_names(raw@.map_values(|a: ArtifactIm| a@));
    let mut r = Names::new();
    let mut j: usize = 0;
    while j < raw.len()
        invariant
            j <= raw@.len(),
            raw@.len() == fulls@.len(),
            ns == im_names(raw@.map_values(|a: ArtifactIm| a@)),
            keys_unique(ns),
            r.wf(),
            r@.to_set() == Set::new(
                |x: Seq<char>|
                    exists|q: int|
                        0 <= q < j && x == raw@[q].name@ && has_key(fulls@[q]@, key_of(n@)),
            ),
        decreases raw@.len() - j,
    {
        if fulls[j].contains(n) {
            let x = raw[j].name.clone();
            let ghost pre = r@;
            proof {
                if has_key(pre, key_of(x@)) {
                    let z = choose|z: int| 0 <= z < pre.len() && key_of(pre[z]) == key_of(x@);
                    assert(pre.to_set().contains(pre[z]));
                    let q = choose|q: int|
                        0 <= q < j && pre[z] == raw@[q].name@ && has_key(fulls@[q]@, key_of(n@));
                    assert(ns[q] == raw@[q].name@);
                    assert(ns[j as int] == raw@[j as int].name@);
                }
            }
            r.insert(x);
            assert(r@.to_set() =~= Set::new(
                |x: Seq<char>|
                    exists|q: int|
                        0 <= q < j + 1 && x == raw@[q].name@ && has_key(fulls@[q]@, key_of(n@)),
            ));
        } else {
            assert(r@.to_set() =~= Set::new(
                |x: Seq<char>|
                    exists|q: int|
                        0 <= q < j + 1 && x == raw@[q].name@ && has_key(fulls@[q]@, key_of(n@)),
            ));
        }
        j = j + 1;
    }
    r
}

/// The full partof of one artifact: its explicit links and those that
/// follow from names and name a member of the universe.
pub open spec fn full_partof_of(f: Seq<Seq<char>>, m: ArtifactImView, ns: Seq<Seq<char>>) -> bool {
    &&& names_wf(f)
    &&& m.partof.to_set().subset_of(f.to_set())
    &&& f.to_set().subset_of(m.partof.to_set() + present_autos(m.name, ns))
    &&& forall|k: Seq<u32>|
        has_key(f, k) <==> (has_key(m.partof, k) || exists|x: Seq<char>|
            present_autos(m.name, ns).contains(x) && key_of(x) == k)
}

fn full_partofs(raw: &Vec<ArtifactIm>) -> (r: Vec<Names>)
    requires
        forall|i: int| 0 <= i < raw@.len() ==> (#[trigger] raw@[i]).wf(),
        keys_unique(im_names(raw@.map_values(|a: ArtifactIm| a@))),
    ensures
        r@.len() == raw@.len(),
        forall|i: int|
            0 <= i < r@.len() ==> full_partof_of(
                (#[trigger] r@[i])@,
                raw@[i]@,
                im_names(raw@.map_values(|a: ArtifactIm| a@)),
            ),
{
    let ghost ns = im_names(raw@.map_values(|a: ArtifactIm| a@));
    let universe = universe_of(raw);
    let autos = auto_partofs(&universe);
    let mut out: Vec<Names> = Vec::new();
    let mut i: usize = 0;
    while i < raw.len()
        invariant
            i <= raw@.len(),
            forall|q: int| 0 <= q < raw@.len() ==> (#[trigger] raw@[q]).wf(),
            ns == im_names(raw@.map_values(|a: ArtifactIm| a@)),
            keys_unique(ns),
            universe.wf(),
            universe@.to_set() == ns.to_set(),
            autos@.len() == universe@.len(),
            forall|q: int|
                0 <= q < autos@.len() ==> {
                    &&& (#[trigger] autos@[q]).0@ == universe@[q]
                    &&& autos@[q].1.wf()
                    &&& autos@[q].1@.to_set() == present_autos(universe@[q], universe@)
                },
            out@.len() == i,
            forall|q: int| 0 <= q < i ==> full_partof_of((#[trigger] out@[q])@, raw@[q]@, ns),
        decreases raw@.len() - i,
    {
        let m = &raw[i];
        assert(ns[i as int] == m.name@);
        assert(ns.to_set().contains(m.name@));
        let j = match universe.find(&m.name) {
            Some(j) => j,
            None => {
                proof {
                    let z = choose|z: int| 0 <= z < universe@.len() && universe@[z] == m.name@;
                    assert(key_of(universe@[z]) == key_of(m.name@));
                }
                0
            },
        };
        let ghost u = universe@[j as int];
        proof {
            assert(universe@.to_set().contains(u));
            let z = choose|z: int| 0 <= z < ns.len() && ns[z] == u;
            assert(z == i);
            assert(present_autos(u, universe@) =~= present_autos(u, ns)) by {
                assert forall|x: Seq<char>| #[trigger] has_key(universe@, key_of(x)) == has_key(ns, key_of(x)) by {
                    lemma_has_key_same_set(universe@, ns, key_of(x));
                }
            }
        }
        let f = merge_autos(&m.partof, &autos[j].1);
        proof {
            let a = autos@[j as int].1@;
            assert forall|k: Seq<u32>| has_key(a, k) <==> exists|x: Seq<char>|
                present_autos(m.name@, ns).contains(x) && key_of(x) == k by {
                if has_key(a, k) {
                    let q = choose|q: int| 0 <= q < a.len() && key_of(a[q]) == k;
                    assert(a.to_set().contains(a[q]));
                }
                if exists|x: Seq<char>| present_autos(m.name@, ns).contains(x) && key_of(x) == k {
                    let x = choose|x: Seq<char>| present_autos(m.name@, ns).contains(x) && key_of(x) == k;
                    assert(a.to_set().contains(x));
                    let q = choose|q: int| 0 <= q < a.len() && a[q] == x;
                    assert(key_of(a[q]) == k);
                }
            }
        }
        out.push(f);
        i = i + 1;
    }
    out
}

/// Adding the present links by convention and stripping them again gives
/// the explicit links back, stripped.
proof fn lemma_full_strip(f: Seq<Seq<char>>, m: ArtifactImView, ns: Seq<Seq<char>>)
    requires
        names_wf(m.partof),
        full_partof_of(f, m, ns),
    ensures
        strip_seq(m.name, f) == strip_seq(m.name, m.partof),
{
    lemma_strip_set(m.name, f);
    lemma_strip_set(m.name, m.partof);
    lemma_strip_wf(m.name, f);
    lemma_strip_wf(m.name, m.partof);
    let a = f.to_set().filter(|x: Seq<char>| !is_auto_of(m.name, x));
    let b = m.partof.to_set().filter(|x: Seq<char>| !is_auto_of(m.name, x));
    assert forall|x: Seq<char>| a.contains(x) implies b.contains(x) by {
        if !m.partof.to_set().contains(x) {
            assert(present_autos(m.name, ns).contains(x));
        }
    }
    assert(a =~= b);
    lemma_sorted_unique(strip_seq(m.name, f), strip_seq(m.name, m.partof));
}

fn build_artifact(m: &ArtifactIm, partof: Names, parts: Names, code: &Vec<(Name, ImplCode)>) -> (a: Artifact)
    requires
        partof.wf(),
        parts.wf(),
    ensures
        a.wf(),
        a.name@ == m.name@,
        a.file@ == m.file@,
        a.text@ == m.text@,
        a.partof@ == partof@,
        a.parts@ == parts@,
        a.impl_@ == impl_for(m@, code_view(code@)),
        done_reason(a.impl_@) == m@.done,
        a.subnames@.map_values(|s: SubName| s@) == subnames_of(m.text@),
        completed_of(a.completed, a.impl_@, subnames_of(m.text@)),
        a.id.0@ == hash_of(clean_of(a.im_view())),
{
    let impl_ = match &m.done {
        Some(d) => Impl::Done(d.clone()),
        None => match find_code(code, &m.name) {
            Some(c) => Impl::Code(code[c].1.clone()),
            None => Impl::NotImpl,
        },
    };
    let subnames = parse_subnames(m.text.as_str());
    let st = impl_.to_statistics(&subnames);
    let completed = Completed {
        spc: Ratio { value: st.1, count: st.0 },
        tst: Ratio { value: st.3, count: st.2 },
    };
    let mut a = Artifact {
        id: HashIm([0u8; 16]),
        name: m.name.clone(),
        file: m.file.clone(),
        partof,
        parts,
        completed,
        text: m.text.clone(),
        impl_,
        subnames,
    };
    let im = ArtifactIm::from_artifact(&a);
    a.id = im.hash_im();
    a
}

/// Every artifact's parts hold exactly the artifacts that list it in
/// their partof.
proof fn lemma_parts_inverse(arts: Seq<Artifact>, raw: Seq<ArtifactImView>)
    requires
        arts.len() == raw.len(),
        keys_unique(im_names(raw)),
        forall|i: int| 0 <= i < arts.len() ==> (#[trigger] arts[i]).name@ == raw[i].name,
        forall|i: int|
            0 <= i < arts.len() ==> (#[trigger] arts[i]).parts@.to_set() == Set::new(
                |x: Seq<char>|
                    exists|j: int|
                        0 <= j < raw.len() && x == raw[j].name && has_key(
                            arts[j].partof@,
                            key_of(raw[i].name),
                        ),
            ),
    ensures
        parts_inverse(arts),
{
    assert forall|i: int, j: int| 0 <= i < arts.len() && 0 <= j < arts.len() implies (has_key(
        #[trigger] arts[i].parts@,
        key_of(arts[j].name@),
    ) <==> has_key(#[trigger] arts[j].partof@, key_of(arts[i].name@))) by {
        let ps = arts[i].parts@;
        assert(arts[i].name@ == raw[i].name);
        assert(arts[j].name@ == raw[j].name);
        if has_key(ps, key_of(arts[j].name@)) {
            let z = choose|z: int| 0 <= z < ps.len() && key_of(ps[z]) == key_of(arts[j].name@);
            assert(ps.to_set().contains(ps[z]));
            let q = choose|q: int|
                0 <= q < raw.len() && ps[z] == raw[q].name && has_key(arts[q].partof@, key_of(raw[i].name));
            assert(im_names(raw)[q] == raw[q].name);
            assert(im_names(raw)[j] == raw[j].name);
            assert(q == j);
        }
        if has_key(arts[j].partof@, key_of(arts[i].name@)) {
            assert(ps.to_set().contains(raw[j].name));
            let z = choose|z: int| 0 <= z < ps.len() && ps[z] == raw[j].name;
            assert(key_of(ps[z]) == key_of(arts[j].name@));
        }
    }
}

/// Assemble the artifacts of a project from intermediate forms, one
/// artifact each, in the same order.
pub fn assemble_artifacts(raw: &Vec<ArtifactIm>, code: &Vec<(Name, ImplCode)>) -> (r: Vec<Artifact>)
    requires
        forall|i: int| 0 <= i < raw@.len() ==> (#[trigger] raw@[i]).wf(),
        keys_unique(im_names(raw@.map_values(|a: ArtifactIm| a@))),
    ensures
        assembled(r@, raw@.map_values(|a: ArtifactIm| a@), code_view(code@)),
{
    let ghost rv = raw@.map_values(|a: ArtifactIm| a@);
    let ghost ns = im_names(rv);
    let fulls = full_partofs(raw);
    let mut out: Vec<Artifact> = Vec::new();
    let mut i: usize = 0;
    while i < raw.len()
        invariant
            i <= raw@.len(),
            fulls@.len() == raw@.len(),
            rv == raw@.map_values(|a: ArtifactIm| a@),
            ns == im_names(rv),
            keys_unique(ns),
            forall|q: int| 0 <= q < raw@.len() ==> (#[trigger] raw@[q]).wf(),
            forall|q: int| 0 <= q < fulls@.len() ==> full_partof_of((#[trigger] fulls@[q])@, raw@[q]@, ns),
            out@.len() == i,
            forall|q: int|
                0 <= q < i ==> {
                    &&& (#[trigger] out@[q]).wf()
                    &&& out@[q].name@ == raw@[q].name@
                    &&& out@[q].file@ == raw@[q].file@
                    &&& out@[q].text@ == raw@[q].text@
                    &&& out@[q].partof@ == fulls@[q]@
                    &&& out@[q].parts@.to_set() == Set::new(
                        |x: Seq<char>|
                            exists|j: int|
                                0 <= j < raw@.len() && x == raw@[j].name@ && has_key(
                                    fulls@[j]@,
                                    key_of(raw@[q].name@),
                                ),
                    )
                    &&& out@[q].impl_@ == impl_for(raw@[q]@, code_view(code@))
                    &&& done_reason(out@[q].impl_@) == raw@[q]@.done
                    &&& out@[q].subnames@.map_values(|s: SubName| s@) == subnames_of(raw@[q].text@)
                    &&& completed_of(out@[q].completed, out@[q].impl_@, subnames_of(raw@[q].text@))
                    &&& out@[q].id.0@ == hash_of(clean_of(out@[q].im_view()))
                },
        decreases raw@.len() - i,
    {
        let parts = parts_of(&raw[i].name, raw, &fulls);
        let a = build_artifact(&raw[i], fulls[i].clone(), parts, code);
        out.push(a);
        i = i + 1;
    }
    proof {
        assert forall|q: int| 0 <= q < out@.len() implies assembled_one(out@, rv, code_view(code@), q) by {
            let a = out@[q];
            let m = rv[q];
            assert(m == raw@[q]@);
            assert(ns[q] == m.name);
            assert forall|x: Seq<char>| a.parts@.to_set().contains(x) == (exists|j: int|
                0 <= j < rv.len() && x == rv[j].name && has_key(out@[j].partof@, key_of(m.name))) by {
                if a.parts@.to_set().contains(x) {
                    let j = choose|j: int|
                        0 <= j < raw@.len() && x == raw@[j].name@ && has_key(fulls@[j]@, key_of(raw@[q].name@));
                    assert(rv[j].name == raw@[j].name@);
                    assert(out@[j].partof@ == fulls@[j]@);
                }
                if exists|j: int|
                    0 <= j < rv.len() && x == rv[j].name && has_key(out@[j].partof@, key_of(m.name)) {
                    let j = choose|j: int|
                        0 <= j < rv.len() && x == rv[j].name && has_key(out@[j].partof@, key_of(m.name));
                    assert(rv[j].name == raw@[j].name@);
                    assert(out@[j].partof@ == fulls@[j]@);
                }
            }
            assert(a.parts@.to_set() =~= Set::new(
                |x: Seq<char>|
                    exists|j: int|
                        0 <= j < rv.len() && x == rv[j].name && has_key(out@[j].partof@, key_of(m.name)),
            ));
            lemma_full_strip(fulls@[q]@, m, ns);
            assert(a.im_view().partof == fulls@[q]@);
            assert(clean_of(a.im_view()) == clean_of(m));
        }
        assert forall|i: int| 0 <= i < out@.len() implies (#[trigger] out@[i]).parts@.to_set() == Set::new(
            |x: Seq<char>|
                exists|j: int|
                    0 <= j < rv.len() && x == rv[j].name && has_key(out@[j].partof@, key_of(rv[i].name)),
        ) && out@[i].name@ == rv[i].name by {
            assert(assembled_one(out@, rv, code_view(code@), i));
        }
        lemma_parts_inverse(out@, rv);
    }
    out
}

/// The project graph: its paths, the code implementations found, and the
/// artifacts.
#[derive(Debug)]
pub struct Project {
    pub paths: ProjectPaths,
    pub code_impls: Vec<(Name, ImplCode)>,
    pub artifacts: Vec<Artifact>,
}

/// The names of a sequence of artifacts.
pub open spec fn art_names(arts: Seq<Artifact>) -> Seq<Seq<char>> {
    arts.map_values(|a: Artifact| a.name@)
}

/// The names of a sequence of code implementations.
pub open spec fn code_names(cs: Seq<(Name, ImplCode)>) -> Seq<Seq<char>> {
    cs.map_values(|c: (Name, ImplCode)| c.0@)
}

/// The clean intermediate forms of a sequence of artifacts.
pub open spec fn clean_forms(arts: Seq<Artifact>) -> Seq<ArtifactImView> {
    arts.map_values(|a: Artifact| clean_of(a.im_view()))
}

/// Assembled artifacts have the names of their forms, and so distinct keys.
pub proof fn lemma_assembled_names(
    arts: Seq<Artifact>,
    raw: Seq<ArtifactImView>,
    code: Seq<(Seq<char>, ImplCodeView)>,
)
    requires
        assembled(arts, raw, code),
        keys_unique(im_names(raw)),
    ensures
        art_names(arts) == im_names(raw),
        keys_unique(art_names(arts)),
{
    assert forall|i: int| 0 <= i < arts.len() implies #[trigger] art_names(arts)[i] == im_names(raw)[i] by {
        assert(assembled_one(arts, raw, code, i));
    }
    assert(art_names(arts) =~= im_names(raw));
}

impl Project {
    /// Well-formed: names of distinct keys, sorted link sets, identity
    /// hashes that match, and parts that invert partof.
    pub open spec fn wf(&self) -> bool {
        &&& keys_unique(art_names(self.artifacts@))
        &&& keys_unique(code_names(self.code_impls@))
        &&& forall|i: int| 0 <= i < self.artifacts@.len() ==> (#[trigger] self.artifacts@[i]).wf()
        &&& forall|i: int|
            0 <= i < self.artifacts@.len() ==> (#[trigger] self.artifacts@[i]).id.0@ == hash_of(
                clean_of(self.artifacts@[i].im_view()),
            )
        &&& parts_inverse(self.artifacts@)
    }

    /// Assemble a project from intermediate forms of distinct names, the
    /// code implementations found, and its paths.
    pub fn assemble(raw: Vec<ArtifactIm>, code_impls: Vec<(Name, ImplCode)>, paths: ProjectPaths) -> (r: Project)
        requires
            forall|i: int| 0 <= i < raw@.len() ==> (#[trigger] raw@[i]).wf(),
            keys_unique(im_names(raw@.map_values(|a: ArtifactIm| a@))),
            keys_unique(code_names(code_impls@)),
        ensures
            r.wf(),
            assembled(r.artifacts@, raw@.map_values(|a: ArtifactIm| a@), code_view(r.code_impls@)),
            r.code_impls@ == code_impls@,
            r.paths == paths,
    {
        let artifacts = assemble_artifacts(&raw, &code_impls);
        let r = Project { paths, code_impls, artifacts };
        proof {
            lemma_assembled_wf(r.artifacts@, raw@.map_values(|a: ArtifactIm| a@), code_view(r.code_impls@));
        }
        r
    }

    /// The position of the artifact of the key of `name`, if any.
    pub fn find(&self, name: &Name) -> (r: Option<usize>)
        ensures
            match r {
                Some(i) => i < self.artifacts@.len() && key_of(self.artifacts@[i as int].name@) == key_of(name@),
                None => forall|i: int| 0 <= i < self.artifacts@.len() ==> key_of(#[trigger] self.artifacts@[i].name@) != key_of(name@),
            },
    {
        let mut i: usize = 0;
        while i < self.artifacts.len()
            invariant
                i <= self.artifacts@.len(),
                forall|j: int| 0 <= j < i ==> key_of(#[trigger] self.artifacts@[j].name@) != key_of(name@),
            decreases self.artifacts@.len() - i,
        {
            if compare_names(&self.artifacts[i].name, name) == 0 {
                return Some(i);
            }
            i = i + 1;
        }
        None
    }
}

/// What assembly makes is a well-formed project.
pub proof fn lemma_assembled_wf(
    arts: Seq<Artifact>,
    raw: Seq<ArtifactImView>,
    code: Seq<(Seq<char>, ImplCodeView)>,
)
    requires
        assembled(arts, raw, code),
        keys_unique(im_names(raw)),
    ensures
        keys_unique(art_names(arts)),
        forall|i: int| 0 <= i < arts.len() ==> (#[trigger] arts[i]).wf(),
        forall|i: int| 0 <= i < arts.len() ==> (#[trigger] arts[i]).id.0@ == hash_of(clean_of(arts[i].im_view())),
        parts_inverse(arts),
{
    lemma_assembled_names(arts, raw, code);
    assert forall|i: int| 0 <= i < arts.len() implies (#[trigger] arts[i]).wf() && arts[i].id.0@ == hash_of(
        clean_of(arts[i].im_view()),
    ) by {
        assert(assembled_one(arts, raw, code, i));
    }
}

/// The artifacts are in strictly increasing order of their names' keys.
pub open spec fn arts_sorted(arts: Seq<Artifact>) -> bool {
    forall|i: int, j: int|
        0 <= i < j < arts.len() ==> key_lt(key_of(#[trigger] arts[i].name@), key_of(#[trigger] arts[j].name@))
}

/// The position of the artifact of least key in `rem`.
fn min_position(rem: &Vec<Artifact>) -> (m: usize)
    requires
        rem@.len() > 0,
        keys_unique(art_names(rem@)),
    ensures
        m < rem@.len(),
        forall|q: int|
            0 <= q < rem@.len() && q != m ==> key_lt(key_of(rem@[m as int].name@), key_of(#[trigger] rem@[q].name@)),
{
    let mut m: usize = 0;
    let mut k: usize = 1;
    while k < rem.len()
        invariant
            1 <= k <= rem@.len(),
            m < k,
            keys_unique(art_names(rem@)),
            forall|q: int|
                0 <= q < k && q != m ==> key_lt(key_of(rem@[m as int].name@), key_of(#[trigger] rem@[q].name@)),
        decreases rem@.len() - k,
    {
        let c = compare_names(&rem[k].name, &rem[m].name);
        proof {
            assert(art_names(rem@)[k as int] == rem@[k as int].name@);
            assert(art_names(rem@)[m as int] == rem@[m as int].name@);
        }
        if c < 0 {
            proof {
                assert forall|q: int| 0 <= q < k + 1 && q != k implies key_lt(
                    key_of(rem@[k as int].name@),
                    key_of(#[trigger] rem@[q].name@),
                ) by {
                    if q != m {
                        lemma_key_lt_trans(
                            key_of(rem@[k as int].name@),
                            key_of(rem@[m as int].name@),
                            key_of(rem@[q].name@),
                        );
                    }
                }
            }
            m = k;
        }
        k = k + 1;
    }
    m
}

impl SortKey for (Name, ImplCode) {
    open spec fn sort_key(&self) -> Seq<u32> {
        key_of(self.0@)
    }

    fn cmp_key(&self, other: &(Name, ImplCode)) -> (r: i8) {
        compare_names(&self.0, &other.0)
    }
}

/// `b` is `a` with its sub-identifiers, and those of its code
/// implementation, in order; nothing else differs.
pub open spec fn sorted_version(a: Artifact, b: Artifact) -> bool {
    &&& b.id == a.id
    &&& b.name == a.name
    &&& b.file == a.file
    &&& b.partof == a.partof
    &&& b.parts == a.parts
    &&& b.completed == a.completed
    &&& b.text == a.text
    &&& b.subnames@.to_multiset() == a.subnames@.to_multiset()
    &&& sorted_by_key(b.subnames@)
    &&& (keys_distinct(a.subnames@) ==> strictly_sorted_by_key(b.subnames@))
    &&& match a.impl_ {
        Impl::Code(c) => b.impl_ is Code && code_sorted_version(c, b.impl_->Code_0),
        _ => b.impl_ == a.impl_,
    }
}

/// `d` is `c` with its sub-identifier locations in order.
pub open spec fn code_sorted_version(c: ImplCode, d: ImplCode) -> bool {
    &&& d.primary == c.primary
    &&& d.secondary@.to_multiset() == c.secondary@.to_multiset()
    &&& sorted_by_key(d.secondary@)
    &&& (keys_distinct(c.secondary@) ==> strictly_sorted_by_key(d.secondary@))
}

impl Artifact {
    /// Order the sub-identifiers, and those of the code implementation.
    pub fn sort(&mut self)
        ensures
            sorted_version(*old(self), *final(self)),
    {
        sort_by_key(&mut self.subnames);
        match &mut self.impl_ {
            Impl::Code(c) => sort_by_key(&mut c.secondary),
            _ => {},
        }
    }
}

/// The code implementations of `cs` with each one's locations in order.
pub open spec fn codes_sorted_versions(cs: Seq<(Name, ImplCode)>, ds: Seq<(Name, ImplCode)>) -> bool {
    &&& ds.len() == cs.len()
    &&& forall|i: int| 0 <= i < cs.len() ==> (#[trigger] ds[i]).0 == cs[i].0 && code_sorted_version(cs[i].1, ds[i].1)
}

/// The artifacts of `xs` each sorted within.
pub open spec fn arts_sorted_versions(xs: Seq<Artifact>, ys: Seq<Artifact>) -> bool {
    &&& ys.len() == xs.len()
    &&& forall|i: int| 0 <= i < xs.len() ==> sorted_version(xs[i], #[trigger] ys[i])
}

impl Project {
    /// Order everything within: the artifacts by the keys of their names,
    /// each artifact's sub-identifiers, the code implementations by key, and
    /// each one's locations by sub-identifier.
    pub fn sort(&mut self)
        requires
            old(self).wf(),
        ensures
            final(self).wf(),
            arts_sorted(final(self).artifacts@),
            exists|mid: Seq<Artifact>|
                arts_sorted_versions(old(self).artifacts@, mid) && final(self).artifacts@.to_multiset()
                    == mid.to_multiset(),
            strictly_sorted_by_key(final(self).code_impls@),
            exists|cmid: Seq<(Name, ImplCode)>|
                codes_sorted_versions(old(self).code_impls@, cmid) && final(self).code_impls@.to_multiset()
                    == cmid.to_multiset(),
            final(self).paths == old(self).paths,
    {
        self.sort_code_impls();
        self.sort_within_artifacts();
        self.sort_artifacts();
    }

    fn sort_code_impls(&mut self)
        requires
            old(self).wf(),
        ensures
            final(self).artifacts == old(self).artifacts,
            final(self).paths == old(self).paths,
            final(self).wf(),
            strictly_sorted_by_key(final(self).code_impls@),
            exists|cmid: Seq<(Name, ImplCode)>|
                codes_sorted_versions(old(self).code_impls@, cmid) && final(self).code_impls@.to_multiset()
                    == cmid.to_multiset(),
    {
        let ghost orig = self.code_impls@;
        let mut rem: Vec<(Name, ImplCode)> = Vec::new();
        std::mem::swap(&mut rem, &mut self.code_impls);
        let mut mid: Vec<(Name, ImplCode)> = Vec::new();
        let mut k: usize = 0;
        let total = rem.len();
        while rem.len() > 0
            invariant
                total == orig.len(),
                k <= orig.len(),
                rem@ == orig.subrange(k as int, orig.len() as int),
                mid@.len() == k,
                forall|i: int| 0 <= i < k ==> (#[trigger] mid@[i]).0 == orig[i].0 && code_sorted_version(orig[i].1, mid@[i].1),
            decreases rem@.len(),
        {
            let (n, mut c) = rem.remove(0);
            assert(orig[k as int] == (n, c));
            sort_by_key(&mut c.secondary);
            mid.push((n, c));
            assert(rem@ =~= orig.subrange(k + 1, orig.len() as int));
            k = k + 1;
        }
        let ghost m = mid@;
        proof {
            assert forall|i: int, j: int| 0 <= i < m.len() && 0 <= j < m.len() && i != j implies #[trigger] m[i].sort_key()
                != #[trigger] m[j].sort_key() by {
                assert(code_names(orig)[i] == orig[i].0@ && code_names(orig)[j] == orig[j].0@);
            }
        }
        sort_by_key(&mut mid);
        self.code_impls = mid;
        assert(codes_sorted_versions(orig, m));
        proof {
            let f = self.code_impls@;
            assert forall|i: int, j: int| 0 <= i < f.len() && 0 <= j < f.len() && i != j implies key_of(
                code_names(f)[i],
            ) != key_of(code_names(f)[j]) by {
                assert(code_names(f)[i] == f[i].0@ && code_names(f)[j] == f[j].0@);
                if i < j {
                    assert(key_lt(f[i].sort_key(), f[j].sort_key()));
                    lemma_key_lt_irrefl(f[i].sort_key());
                } else {
                    assert(key_lt(f[j].sort_key(), f[i].sort_key()));
                    lemma_key_lt_irrefl(f[j].sort_key());
                }
            }
        }
    }

    fn sort_within_artifacts(&mut self)
        requires
            old(self).wf(),
        ensures
            final(self).code_impls == old(self).code_impls,
            final(self).paths == old(self).paths,
            final(self).wf(),
            arts_sorted_versions(old(self).artifacts@, final(self).artifacts@),
    {
        let ghost orig = self.artifacts@;
        let mut rem: Vec<Artifact> = Vec::new();
        std::mem::swap(&mut rem, &mut self.artifacts);
        let mut mid: Vec<Artifact> = Vec::new();
        let mut k: usize = 0;
        let total = rem.len();
        while rem.len() > 0
            invariant
                total == orig.len(),
                k <= orig.len(),
                rem@ == orig.subrange(k as int, orig.len() as int),
                mid@.len() == k,
                forall|i: int| 0 <= i < k ==> sorted_version(orig[i], #[trigger] mid@[i]),
            decreases rem@.len(),
        {
            let mut a = rem.remove(0);
            assert(orig[k as int] == a);
            a.sort();
            mid.push(a);
            assert(rem@ =~= orig.subrange(k + 1, orig.len() as int));
            k = k + 1;
        }
        self.artifacts = mid;
        proof {
            let a = self.artifacts@;
            assert(art_names(a) =~= art_names(orig)) by {
                assert forall|i: int| 0 <= i < a.len() implies art_names(a)[i] == art_names(orig)[i] by {
                    assert(sorted_version(orig[i], a[i]));
                }
            }
            assert forall|i: int| 0 <= i < a.len() implies (#[trigger] a[i]).wf() && a[i].id.0@ == hash_of(
                clean_of(a[i].im_view()),
            ) by {
                assert(sorted_version(orig[i], a[i]));
                assert(done_reason(a[i].impl_@) == done_reason(orig[i].impl_@));
                assert(a[i].im_view() == orig[i].im_view());
            }
            assert forall|i: int, j: int| 0 <= i < a.len() && 0 <= j < a.len() implies (has_key(
                #[trigger] a[i].parts@,
                key_of(a[j].name@),
            ) <==> has_key(#[trigger] a[j].partof@, key_of(a[i].name@))) by {
                assert(sorted_version(orig[i], a[i]) && sorted_version(orig[j], a[j]));
                assert(has_key(orig[i].parts@, key_of(orig[j].name@)) <==> has_key(orig[j].partof@, key_of(orig[i].name@)));
            }
        }
    }

    /// Order the artifacts by the keys of their names; nothing else moves.
    fn sort_artifacts(&mut self)
        requires
            old(self).wf(),
        ensures
            final(self).wf(),
            arts_sorted(final(self).artifacts@),
            final(self).artifacts@.to_multiset() == old(self).artifacts@.to_multiset(),
            final(self).paths == old(self).paths,
            final(self).code_impls == old(self).code_impls,
    {
        let ghost orig = self.artifacts@;
        let mut rem: Vec<Artifact> = Vec::new();
        std::mem::swap(&mut rem, &mut self.artifacts);
        let mut dest: Vec<Artifact> = Vec::new();
        proof {
            broadcast use vstd::seq_lib::group_to_multiset_ensures;
            assert(dest@.to_multiset().add(rem@.to_multiset()) =~= orig.to_multiset());
        }
        while rem.len() > 0
            invariant
                orig == old(self).artifacts@,
                old(self).wf(),
                self.paths == old(self).paths,
                self.code_impls == old(self).code_impls,
                dest@.to_multiset().add(rem@.to_multiset()) == orig.to_multiset(),
                keys_unique(art_names(rem@)),
                arts_sorted(dest@),
                forall|d: int, q: int|
                    0 <= d < dest@.len() && 0 <= q < rem@.len() ==> key_lt(
                        key_of(#[trigger] dest@[d].name@),
                        key_of(#[trigger] rem@[q].name@),
                    ),
                forall|d: int| 0 <= d < dest@.len() ==> orig.contains(#[trigger] dest@[d]),
                forall|q: int| 0 <= q < rem@.len() ==> orig.contains(#[trigger] rem@[q]),
            decreases rem@.len(),
        {
            broadcast use vstd::seq_lib::group_to_multiset_ensures;
            let m = min_position(&rem);
            let ghost r0 = rem@;
            let ghost d0 = dest@;
            let x = rem.remove(m);
            dest.push(x);
            proof {
                assert(dest@.to_multiset().add(rem@.to_multiset()) =~= orig.to_multiset());
                assert(keys_unique(art_names(rem@))) by {
                    assert forall|i: int, j: int|
                        0 <= i < rem@.len() && 0 <= j < rem@.len() && i != j implies key_of(
                            art_names(rem@)[i],
                        ) != key_of(art_names(rem@)[j]) by {
                        let i2 = if i >= m { i + 1 } else { i };
                        let j2 = if j >= m { j + 1 } else { j };
                        assert(rem@[i] == r0[i2] && rem@[j] == r0[j2]);
                        assert(art_names(r0)[i2] == r0[i2].name@ && art_names(r0)[j2] == r0[j2].name@);
                    }
                }
                assert forall|d: int, q: int| 0 <= d < dest@.len() && 0 <= q < rem@.len() implies key_lt(
                    key_of(#[trigger] dest@[d].name@),
                    key_of(#[trigger] rem@[q].name@),
                ) by {
                    let q2 = if q >= m { q + 1 } else { q };
                    assert(rem@[q] == r0[q2]);
                    if d < d0.len() {
                        assert(dest@[d] == d0[d]);
                    }
                }
                assert forall|q: int| 0 <= q < rem@.len() implies orig.contains(#[trigger] rem@[q]) by {
                    let q2 = if q >= m { q + 1 } else { q };
                    assert(rem@[q] == r0[q2]);
                }
                assert forall|d: int| 0 <= d < dest@.len() implies orig.contains(#[trigger] dest@[d]) by {
                    if d < d0.len() {
                        assert(dest@[d] == d0[d]);
                    } else {
                        assert(dest@[d] == r0[m as int]);
                    }
                }
                assert forall|i: int, j: int| 0 <= i < j < dest@.len() implies key_lt(
                    key_of(#[trigger] dest@[i].name@),
                    key_of(#[trigger] dest@[j].name@),
                ) by {
                    assert(dest@[i] == d0[i]);
                    if j < d0.len() {
                        assert(dest@[j] == d0[j]);
                    } else {
                        assert(dest@[j] == r0[m as int]);
                    }
                }
            }
        }
        self.artifacts = dest;
        proof {
            broadcast use vstd::seq_lib::group_to_multiset_ensures;
            let a = self.artifacts@;
            assert(rem@.to_multiset() =~= Multiset::empty());
            assert(a.to_multiset() =~= orig.to_multiset());
            assert forall|x: Artifact| orig.contains(x) implies a.contains(x) by {
                assert(orig.to_multiset().count(x) > 0);
            }
            assert forall|i: int, j: int|
                0 <= i < a.len() && 0 <= j < a.len() && i != j implies key_of(art_names(a)[i]) != key_of(
                    art_names(a)[j],
                ) by {
                assert(art_names(a)[i] == a[i].name@ && art_names(a)[j] == a[j].name@);
                if i < j {
                    lemma_key_lt_irrefl(key_of(a[i].name@));
                } else {
                    lemma_key_lt_irrefl(key_of(a[j].name@));
                }
            }
            assert forall|i: int| 0 <= i < a.len() implies (#[trigger] a[i]).wf() && a[i].id.0@ == hash_of(
                clean_of(a[i].im_view()),
            ) by {
                assert(orig.contains(a[i]));
                let k = choose|k: int| 0 <= k < orig.len() && orig[k] == a[i];
                assert(orig[k].wf());
            }
            assert forall|i: int, j: int| 0 <= i < a.len() && 0 <= j < a.len() implies (has_key(
                #[trigger] a[i].parts@,
                key_of(a[j].name@),
            ) <==> has_key(#[trigger] a[j].partof@, key_of(a[i].name@))) by {
                assert(orig.contains(a[i]) && orig.contains(a[j]));
                let k = choose|k: int| 0 <= k < orig.len() && orig[k] == a[i];
                let l = choose|l: int| 0 <= l < orig.len() && orig[l] == a[j];
                assert(has_key(orig[k].parts@, key_of(orig[l].name@)) <==> has_key(orig[l].partof@, key_of(orig[k].name@)));
            }
        }
    }
}

} // verus!
