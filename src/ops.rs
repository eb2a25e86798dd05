//! The modification protocol: create, update and delete operations guarded
//! by identity hashes, applied as one batch or not at all.
use vstd::prelude::*;
use crate::im::{ArtifactIm, ArtifactImView, HashIm, clean_of, hash_of, lemma_clean_idempotent};
use crate::name::{Name, key_of};
use crate::order::compare_names;
use crate::project::{Artifact, Project, assembled_one, art_names, assemble_artifacts, assembled, clean_forms, code_view, im_names, keys_unique, lemma_assembled_wf};

verus! {

/// A requested change to a project.
#[derive(Debug)]
pub enum ArtifactOp {
    Create { artifact: ArtifactIm },
    Update { artifact: ArtifactIm, orig_id: HashIm },
    Delete { name: Name, orig_id: HashIm },
}

/// An operation as values.
pub enum OpView {
    Create(ArtifactImView),
    Update(ArtifactImView, Seq<u8>),
    Delete(Seq<char>, Seq<u8>),
}

impl View for ArtifactOp {
    type V = OpView;

    open spec fn view(&self) -> OpView {
        match self {
            ArtifactOp::Create { artifact } => OpView::Create(artifact@),
            ArtifactOp::Update { artifact, orig_id } => OpView::Update(artifact@, orig_id.0@),
            ArtifactOp::Delete { name, orig_id } => OpView::Delete(name@, orig_id.0@),
        }
    }
}

/// The name an operation is about.
pub open spec fn op_target(op: OpView) -> Seq<char> {
    match op {
        OpView::Create(a) => a.name,
        OpView::Update(a, _) => a.name,
        OpView::Delete(n, _) => n,
    }
}

/// The identity transition an operation stands for.
#[derive(Debug)]
pub struct IdPieces {
    pub name: Name,
    pub orig_id: Option<HashIm>,
    pub new_id: Option<HashIm>,
}

/// Why an operation of a batch failed.
#[derive(Clone, Copy, Debug, PartialEq, Eq, Structural)]
pub enum FailKind {
    /// A create names an artifact that exists.
    DuplicateCreate,
    /// The artifact is missing, its hash is not the one given, or an
    /// earlier operation of the batch is about the same name.
    CasConflict,
}

/// An operation of a batch that failed.
#[derive(Debug)]
pub struct OpFailure {
    /// Its position in the batch.
    pub index: usize,
    /// The name it is about.
    pub name: Name,
    pub kind: FailKind,
}

/// Where the form of key `k` stands in `w`, or -1.
pub open spec fn find_form(w: Seq<ArtifactImView>, k: Seq<u32>) -> int
    decreases w.len(),
{
    if w.len() == 0 {
        -1
    } else if key_of(w.last().name) == k {
        w.len() - 1
    } else {
        find_form(w.drop_last(), k)
    }
}

/// The keys of the names that operations are about.
pub open spec fn targets(ops: Seq<OpView>) -> Set<Seq<u32>> {
    Set::new(|k: Seq<u32>| exists|j: int| 0 <= j < ops.len() && key_of(op_target(#[trigger] ops[j])) == k)
}

/// One operation against the working forms, given the keys the batch has
/// already been about: the new forms, and the failure if it failed. A name
/// that the batch has touched already is refused, so every check compares
/// with the project as loaded.
pub open spec fn step(w: Seq<ArtifactImView>, t: Set<Seq<u32>>, op: OpView) -> (
    Seq<ArtifactImView>,
    Option<FailKind>,
) {
    if t.contains(key_of(op_target(op))) {
        (w, Some(FailKind::CasConflict))
    } else {
        step_fresh(w, op)
    }
}

/// One operation about a name the batch has not touched yet.
pub open spec fn step_fresh(w: Seq<ArtifactImView>, op: OpView) -> (Seq<ArtifactImView>, Option<FailKind>) {
    match op {
        OpView::Create(a) => {
            let c = clean_of(a);
            if find_form(w, key_of(c.name)) >= 0 {
                (w, Some(FailKind::DuplicateCreate))
            } else {
                (w.push(c), None)
            }
        },
        OpView::Update(a, h) => {
            let c = clean_of(a);
            let i = find_form(w, key_of(c.name));
            if i < 0 || hash_of(w[i]) != h {
                (w, Some(FailKind::CasConflict))
            } else {
                (w.update(i, c), None)
            }
        },
        OpView::Delete(n, h) => {
            let i = find_form(w, key_of(n));
            if i < 0 || hash_of(w[i]) != h {
                (w, Some(FailKind::CasConflict))
            } else {
                (w.remove(i), None)
            }
        },
    }
}

/// A batch against the working forms, in order: the forms after it, and
/// each failure with its position and name.
pub open spec fn run(w: Seq<ArtifactImView>, ops: Seq<OpView>) -> (
    Seq<ArtifactImView>,
    Seq<(int, Seq<char>, FailKind)>,
)
    decreases ops.len(),
{
    if ops.len() == 0 {
        (w, Seq::empty())
    } else {
        let prev = run(w, ops.drop_last());
        let s = step(prev.0, targets(ops.drop_last()), ops.last());
        (
            s.0,
            match s.1 {
                Some(f) => prev.1.push((ops.len() - 1, op_target(ops.last()), f)),
                None => prev.1,
            },
        )
    }
}

/// Every form is clean.
pub open spec fn all_clean(w: Seq<ArtifactImView>) -> bool {
    forall|i: int| 0 <= i < w.len() ==> #[trigger] clean_of(w[i]) == w[i]
}

proof fn lemma_find_form(w: Seq<ArtifactImView>, k: Seq<u32>)
    ensures
        -1 <= find_form(w, k) < w.len(),
        find_form(w, k) >= 0 ==> key_of(w[find_form(w, k)].name) == k,
        find_form(w, k) < 0 ==> forall|i: int| 0 <= i < w.len() ==> key_of(#[trigger] w[i].name) != k,
    decreases w.len(),
{
    if w.len() > 0 && key_of(w.last().name) != k {
        lemma_find_form(w.drop_last(), k);
        if find_form(w, k) < 0 {
            assert forall|i: int| 0 <= i < w.len() implies key_of(#[trigger] w[i].name) != k by {
                if i < w.len() - 1 {
                    assert(w[i] == w.drop_last()[i]);
                }
            }
        }
    }
}

/// A step keeps the forms clean and of distinct keys.
proof fn lemma_step_wf(w: Seq<ArtifactImView>, op: OpView)
    requires
        all_clean(w),
        keys_unique(im_names(w)),
    ensures
        all_clean(step_fresh(w, op).0),
        keys_unique(im_names(step_fresh(w, op).0)),
{
    let r = step_fresh(w, op).0;
    match op {
        OpView::Create(a) => {
            lemma_find_form(w, key_of(clean_of(a).name));
            lemma_clean_idempotent(a);
        },
        OpView::Update(a, h) => {
            lemma_find_form(w, key_of(clean_of(a).name));
            lemma_clean_idempotent(a);
        },
        OpView::Delete(n, h) => {
            lemma_find_form(w, key_of(n));
        },
    }
    assert forall|i: int| 0 <= i < r.len() implies #[trigger] clean_of(r[i]) == r[i] by {
        match op {
            OpView::Delete(n, h) => {
                let j = find_form(w, key_of(n));
                if j >= 0 && hash_of(w[j]) == h && i >= j {
                    assert(r[i] == w[i + 1]);
                }
            },
            _ => {},
        }
    }
    let ns = im_names(r);
    let ms = im_names(w);
    assert forall|i: int, j: int| 0 <= i < ns.len() && 0 <= j < ns.len() && i != j implies key_of(ns[i])
        != key_of(ns[j]) by {
        assert(ns[i] == r[i].name && ns[j] == r[j].name);
        match op {
            OpView::Delete(n, h) => {
                let q = find_form(w, key_of(n));
                if q >= 0 && hash_of(w[q]) == h {
                    let i2 = if i >= q { i + 1 } else { i };
                    let j2 = if j >= q { j + 1 } else { j };
                    assert(r[i] == w[i2] && r[j] == w[j2]);
                    assert(ms[i2] == w[i2].name && ms[j2] == w[j2].name);
                } else {
                    assert(ms[i] == w[i].name && ms[j] == w[j].name);
                }
            },
            _ => {
                if i < w.len() && j < w.len() {
                    assert(ms[i] == w[i].name && ms[j] == w[j].name);
                }
            },
        }
    }
}

proof fn lemma_run_wf(w: Seq<ArtifactImView>, ops: Seq<OpView>)
    requires
        all_clean(w),
        keys_unique(im_names(w)),
    ensures
        all_clean(run(w, ops).0),
        keys_unique(im_names(run(w, ops).0)),
    decreases ops.len(),
{
    if ops.len() > 0 {
        lemma_run_wf(w, ops.drop_last());
        lemma_step_wf(run(w, ops.drop_last()).0, ops.last());
    }
}

/// The operations of a batch as values.
pub open spec fn ops_view(ops: Seq<ArtifactOp>) -> Seq<OpView> {
    ops.map_values(|o: ArtifactOp| o@)
}

/// Failures as values.
pub open spec fn failures_view(fs: Seq<OpFailure>) -> Seq<(int, Seq<char>, FailKind)> {
    fs.map_values(|f: OpFailure| (f.index as int, f.name@, f.kind))
}

/// A batch against a project's clean forms.
pub open spec fn batch_of(p: Project, ops: Seq<ArtifactOp>) -> (
    Seq<ArtifactImView>,
    Seq<(int, Seq<char>, FailKind)>,
) {
    run(clean_forms(p.artifacts@), ops_view(ops))
}

impl ArtifactOp {
    /// Well-formed: an artifact carried has sorted links.
    pub open spec fn wf(&self) -> bool {
        match self {
            ArtifactOp::Create { artifact } => artifact.wf(),
            ArtifactOp::Update { artifact, .. } => artifact.wf(),
            ArtifactOp::Delete { .. } => true,
        }
    }

    /// Clean the artifact an operation carries.
    pub fn clean(&mut self)
        requires
            old(self).wf(),
        ensures
            final(self).wf(),
            final(self)@ == match old(self)@ {
                OpView::Create(a) => OpView::Create(clean_of(a)),
                OpView::Update(a, h) => OpView::Update(clean_of(a), h),
                OpView::Delete(n, h) => OpView::Delete(n, h),
            },
    {
        match self {
            ArtifactOp::Create { artifact } => artifact.clean(),
            ArtifactOp::Update { artifact, .. } => artifact.clean(),
            ArtifactOp::Delete { .. } => {},
        }
    }

    /// The name an operation is about, the hash it expects, and the hash of
    /// the form it brings.
    pub fn id_pieces(&self) -> (r: IdPieces)
        ensures
            r.name@ == op_target(self@),
            match self@ {
                OpView::Create(a) => r.orig_id is None && r.new_id is Some && r.new_id->Some_0.0@
                    == hash_of(a),
                OpView::Update(a, h) => r.orig_id is Some && r.orig_id->Some_0.0@ == h
                    && r.new_id is Some && r.new_id->Some_0.0@ == hash_of(a),
                OpView::Delete(n, h) => r.orig_id is Some && r.orig_id->Some_0.0@ == h
                    && r.new_id is None,
            },
    {
        match self {
            ArtifactOp::Create { artifact } => IdPieces {
                name: artifact.name.clone(),
                orig_id: None,
                new_id: Some(artifact.hash_im()),
            },
            ArtifactOp::Update { artifact, orig_id } => IdPieces {
                name: artifact.name.clone(),
                orig_id: Some(*orig_id),
                new_id: Some(artifact.hash_im()),
            },
            ArtifactOp::Delete { name, orig_id } => IdPieces {
                name: name.clone(),
                orig_id: Some(*orig_id),
                new_id: None,
            },
        }
    }
}

/// The views of a vector of intermediate forms.
pub open spec fn forms_view(w: Seq<ArtifactIm>) -> Seq<ArtifactImView> {
    w.map_values(|a: ArtifactIm| a@)
}

/// The keys of some names.
pub open spec fn seen_keys(s: Seq<Name>) -> Set<Seq<u32>> {
    Set::new(|k: Seq<u32>| exists|j: int| 0 <= j < s.len() && key_of(#[trigger] s[j]@) == k)
}

fn key_seen(seen: &Vec<Name>, n: &Name) -> (r: bool)
    ensures
        r == seen_keys(seen@).contains(key_of(n@)),
{
    let mut i: usize = 0;
    while i < seen.len()
        invariant
            i <= seen@.len(),
            forall|j: int| 0 <= j < i ==> key_of(#[trigger] seen@[j]@) != key_of(n@),
        decreases seen@.len() - i,
    {
        if compare_names(&seen[i], n) == 0 {
            return true;
        }
        i = i + 1;
    }
    false
}

fn find_form_exec(w: &Vec<ArtifactIm>, n: &Name) -> (r: Option<usize>)
    ensures
        match r {
            Some(i) => i as int == find_form(forms_view(w@), key_of(n@)),
            None => find_form(forms_view(w@), key_of(n@)) < 0,
        },
{
    let ghost wv = forms_view(w@);
    let mut i: usize = w.len();
    assert(wv.subrange(0, i as int) =~= wv);
    while i > 0
        invariant
            i <= w@.len(),
            wv == forms_view(w@),
            find_form(wv, key_of(n@)) == find_form(wv.subrange(0, i as int), key_of(n@)),
        decreases i,
    {
        let ghost sub = wv.subrange(0, i as int);
        assert(sub.last() == wv[i - 1]);
        if compare_names(&w[i - 1].name, n) == 0 {
            return Some(i - 1);
        }
        assert(sub.drop_last() =~= wv.subrange(0, i - 1));
        i = i - 1;
    }
    None
}

/// Apply a batch of operations to a project, in order. Each is checked
/// against the project as loaded: a create against no artifact of its name,
/// an update or delete against its artifact's identity hash; an operation
/// about a name an earlier one of the batch is about fails, since what it
/// expects has been replaced. Where any fails, the project is left as it was
/// and every failure is reported; else the project is assembled anew from
/// the resulting forms.
pub fn modify_project(project: &mut Project, ops: &Vec<ArtifactOp>) -> (r: Result<(), Vec<OpFailure>>)
    requires
        old(project).wf(),
        forall|i: int| 0 <= i < ops@.len() ==> (#[trigger] ops@[i]).wf(),
    ensures
        r is Ok <==> batch_of(*old(project), ops@).1.len() == 0,
        r is Err ==> *final(project) == *old(project),
        r is Err ==> failures_view(r->Err_0@) == batch_of(*old(project), ops@).1,
        r is Ok ==> {
            &&& final(project).wf()
            &&& assembled(
                final(project).artifacts@,
                batch_of(*old(project), ops@).0,
                code_view(final(project).code_impls@),
            )
            &&& final(project).code_impls == old(project).code_impls
            &&& final(project).paths == old(project).paths
        },
{
    let ghost w0 = clean_forms(project.artifacts@);
    let ghost ov = ops_view(ops@);
    let mut working: Vec<ArtifactIm> = Vec::new();
    let mut k: usize = 0;
    while k < project.artifacts.len()
        invariant
            k <= project.artifacts@.len(),
            project.wf(),
            w0 == clean_forms(project.artifacts@),
            working@.len() == k,
            forall|j: int| 0 <= j < k ==> (#[trigger] working@[j]).wf() && working@[j]@ == w0[j],
        decreases project.artifacts@.len() - k,
    {
        working.push(ArtifactIm::from_artifact(&project.artifacts[k]));
        k = k + 1;
    }
    proof {
        assert(forms_view(working@) =~= w0);
        assert forall|j: int| 0 <= j < w0.len() implies #[trigger] clean_of(w0[j]) == w0[j] by {
            lemma_clean_idempotent(project.artifacts@[j].im_view());
        }
        assert(im_names(w0) =~= art_names(project.artifacts@));
    }
    let mut failures: Vec<OpFailure> = Vec::new();
    let mut seen: Vec<Name> = Vec::new();
    let mut i: usize = 0;
    assert(targets(ov.subrange(0, 0)) =~= seen_keys(seen@));
    while i < ops.len()
        invariant
            i <= ops@.len(),
            seen_keys(seen@) == targets(ov.subrange(0, i as int)),
            ov == ops_view(ops@),
            forall|q: int| 0 <= q < ops@.len() ==> (#[trigger] ops@[q]).wf(),
            all_clean(w0),
            keys_unique(im_names(w0)),
            forall|j: int| 0 <= j < working@.len() ==> (#[trigger] working@[j]).wf(),
            forms_view(working@) == run(w0, ov.subrange(0, i as int)).0,
            failures_view(failures@) == run(w0, ov.subrange(0, i as int)).1,
        decreases ops@.len() - i,
    {
        proof {
            lemma_run_wf(w0, ov.subrange(0, i as int));
            assert(ov.subrange(0, i + 1).drop_last() =~= ov.subrange(0, i as int));
            assert(ov.subrange(0, i + 1).last() == ops@[i as int]@);
        }
        let ghost wv = forms_view(working@);
        let target: &Name = match &ops[i] {
            ArtifactOp::Create { artifact } => &artifact.name,
            ArtifactOp::Update { artifact, .. } => &artifact.name,
            ArtifactOp::Delete { name, .. } => name,
        };
        assert(target@ == op_target(ov[i as int]));
        if key_seen(&seen, target) {
            failures.push(OpFailure { index: i, name: target.clone(), kind: FailKind::CasConflict });
            assert(failures_view(failures@) =~= run(w0, ov.subrange(0, i as int)).1.push(
                (i as int, target@, FailKind::CasConflict),
            ));
        } else {
            match &ops[i] {
                ArtifactOp::Create { artifact } => {
                    let mut c = artifact.clone();
                    c.clean();
                    match find_form_exec(&working, &c.name) {
                        Some(_) => {
                            failures.push(OpFailure { index: i, name: c.name.clone(), kind: FailKind::DuplicateCreate });
                            assert(failures_view(failures@) =~= run(w0, ov.subrange(0, i as int)).1.push(
                                (i as int, artifact@.name, FailKind::DuplicateCreate),
                            ));
                        },
                        None => {
                            working.push(c);
                            assert(forms_view(working@) =~= wv.push(clean_of(artifact@)));
                        },
                    }
                },
                ArtifactOp::Update { artifact, orig_id } => {
                    let mut c = artifact.clone();
                    c.clean();
                    let found = find_form_exec(&working, &c.name);
                    let target = c.name.clone();
                    let mut ok = false;
                    if let Some(j) = found {
                        proof {
                            lemma_find_form(wv, key_of(c.name@));
                            assert(working@[j as int]@ == wv[j as int]);
                        }
                        let h = working[j].hash_im();
                        if h == *orig_id {
                            working[j] = c;
                            assert(forms_view(working@) =~= wv.update(j as int, clean_of(artifact@)));
                            ok = true;
                        }
                    }
                    if !ok {
                        failures.push(OpFailure { index: i, name: target, kind: FailKind::CasConflict });
                        assert(failures_view(failures@) =~= run(w0, ov.subrange(0, i as int)).1.push(
                            (i as int, artifact@.name, FailKind::CasConflict),
                        ));
                    }
                },
                ArtifactOp::Delete { name, orig_id } => {
                    let found = find_form_exec(&working, name);
                    let mut ok = false;
                    if let Some(j) = found {
                        proof {
                            lemma_find_form(wv, key_of(name@));
                            assert(working@[j as int]@ == wv[j as int]);
                        }
                        let h = working[j].hash_im();
                        if h == *orig_id {
                            working.remove(j);
                            assert(forms_view(working@) =~= wv.remove(j as int));
                            ok = true;
                        }
                    }
                    if !ok {
                        failures.push(OpFailure { index: i, name: name.clone(), kind: FailKind::CasConflict });
                        assert(failures_view(failures@) =~= run(w0, ov.subrange(0, i as int)).1.push(
                            (i as int, name@, FailKind::CasConflict),
                        ));
                    }
                },
            }
        }
        let ghost t0 = seen_keys(seen@);
        let ghost s_old = seen@;
        seen.push(target.clone());
        proof {
            let t1 = targets(ov.subrange(0, i + 1));
            assert forall|k: Seq<u32>| t1.contains(k) == t0.insert(key_of(target@)).contains(k) by {
                let s0 = ov.subrange(0, i as int);
                let s1 = ov.subrange(0, i + 1);
                if t1.contains(k) {
                    let j = choose|j: int| 0 <= j < s1.len() && key_of(op_target(s1[j])) == k;
                    if j < i {
                        assert(s0[j] == s1[j]);
                    }
                }
                if targets(s0).contains(k) {
                    let j = choose|j: int| 0 <= j < s0.len() && key_of(op_target(s0[j])) == k;
                    assert(s1[j] == s0[j]);
                }
                if k == key_of(target@) {
                    assert(s1[i as int] == ov[i as int]);
                }
            }
            assert(seen_keys(seen@) =~= t0.insert(key_of(target@))) by {
                assert forall|k: Seq<u32>| seen_keys(seen@).contains(k) == t0.insert(key_of(target@)).contains(k) by {
                    if seen_keys(seen@).contains(k) {
                        let j = choose|j: int| 0 <= j < seen@.len() && key_of(seen@[j]@) == k;
                        if j < s_old.len() {
                            assert(seen@[j] == s_old[j]);
                        }
                    }
                    if t0.contains(k) {
                        let j = choose|j: int| 0 <= j < s_old.len() && key_of(s_old[j]@) == k;
                        assert(seen@[j] == s_old[j]);
                    }
                    if k == key_of(target@) {
                        assert(key_of(seen@[seen@.len() - 1]@) == k);
                    }
                }
            }
            assert(seen_keys(seen@) =~= t1);
        }
        i = i + 1;
    }
    proof {
        assert(ov.subrange(0, i as int) =~= ov);
        lemma_run_wf(w0, ov);
    }
    if failures.len() > 0 {
        return Err(failures);
    }
    let arts = assemble_artifacts(&working, &project.code_impls);
    project.artifacts = arts;
    proof {
        lemma_assembled_wf(project.artifacts@, forms_view(working@), code_view(project.code_impls@));
    }
    Ok(())
}

/// The intermediate form an operation brings, if it brings one.
pub open spec fn op_form(op: OpView) -> Option<ArtifactImView> {
    match op {
        OpView::Create(a) => Some(a),
        OpView::Update(a, _) => Some(a),
        OpView::Delete(_, _) => None,
    }
}

proof fn lemma_step_keeps(w: Seq<ArtifactImView>, op: OpView, x: ArtifactImView)
    requires
        w.contains(x),
        key_of(op_target(op)) != key_of(x.name),
        step_fresh(w, op).1 is None,
    ensures
        step_fresh(w, op).0.contains(x),
{
    let m = choose|m: int| 0 <= m < w.len() && w[m] == x;
    let r = step_fresh(w, op).0;
    match op {
        OpView::Create(a) => {
            assert(r[m] == x);
        },
        OpView::Update(a, h) => {
            let q = find_form(w, key_of(clean_of(a).name));
            lemma_find_form(w, key_of(clean_of(a).name));
            assert(q != m);
            assert(r[m] == x);
        },
        OpView::Delete(n, h) => {
            let q = find_form(w, key_of(n));
            lemma_find_form(w, key_of(n));
            assert(q != m);
            if m < q {
                assert(r[m] == x);
            } else {
                assert(r[m - 1] == x);
            }
        },
    }
}

proof fn lemma_prefix_no_fail(w: Seq<ArtifactImView>, ops: Seq<OpView>, n: int)
    requires
        0 <= n <= ops.len(),
        run(w, ops).1.len() == 0,
    ensures
        run(w, ops.subrange(0, n)).1.len() == 0,
    decreases ops.len() - n,
{
    if n == ops.len() {
        assert(ops.subrange(0, n) =~= ops);
    } else {
        lemma_prefix_no_fail(w, ops, n + 1);
        assert(ops.subrange(0, n + 1).drop_last() =~= ops.subrange(0, n));
    }
}

proof fn lemma_prefix_contains(w: Seq<ArtifactImView>, ops: Seq<OpView>, i: int, n: int)
    requires
        0 <= i < n <= ops.len(),
        op_form(ops[i]) is Some,
        run(w, ops.subrange(0, n)).1.len() == 0,
        forall|j: int| i < j < ops.len() ==> key_of(op_target(#[trigger] ops[j])) != key_of(
            op_target(ops[i]),
        ),
    ensures
        run(w, ops.subrange(0, n)).0.contains(clean_of(op_form(ops[i])->Some_0)),
    decreases n,
{
    let sub = ops.subrange(0, n);
    assert(sub.drop_last() =~= ops.subrange(0, n - 1));
    assert(sub.last() == ops[n - 1]);
    let prev = run(w, ops.subrange(0, n - 1));
    let a = op_form(ops[i])->Some_0;
    let st = step(prev.0, targets(ops.subrange(0, n - 1)), ops[n - 1]);
    if st.1 is Some {
        assert(run(w, sub).1.len() == prev.1.len() + 1);
    }
    if n - 1 == i {
        match ops[i] {
            OpView::Create(b) => {
                assert(st.0[st.0.len() - 1] == clean_of(a));
            },
            OpView::Update(b, h) => {
                let q = find_form(prev.0, key_of(clean_of(b).name));
                lemma_find_form(prev.0, key_of(clean_of(b).name));
                assert(st.0[q] == clean_of(a));
            },
            OpView::Delete(_, _) => {},
        }
    } else {
        lemma_prefix_contains(w, ops, i, n - 1);
        assert(op_target(ops[i]) == clean_of(a).name);
        lemma_step_keeps(prev.0, ops[n - 1], clean_of(a));
    }
    assert(run(w, sub).0 == st.0);
}

/// Where a batch succeeds, each artifact that an operation created or
/// updated reads back under its name with that operation's clean form and
/// the identity hash of that form.
pub proof fn lemma_batch_round_trip(p: Project, ops: Seq<ArtifactOp>, arts: Seq<Artifact>, i: int)
    requires
        batch_of(p, ops).1.len() == 0,
        assembled(arts, batch_of(p, ops).0, code_view(p.code_impls@)),
        0 <= i < ops.len(),
        op_form(ops[i]@) is Some,
    ensures
        exists|j: int|
            0 <= j < arts.len() && arts[j].name@ == op_target(ops[i]@) && clean_of(arts[j].im_view())
                == clean_of(op_form(ops[i]@)->Some_0) && arts[j].id.0@ == hash_of(
                clean_of(op_form(ops[i]@)->Some_0),
            ),
{
    let ov = ops_view(ops);
    let w0 = clean_forms(p.artifacts@);
    assert(ov[i] == ops[i]@);
    assert forall|j: int| i < j < ov.len() implies key_of(op_target(#[trigger] ov[j])) != key_of(
        op_target(ov[i]),
    ) by {
        lemma_later_untouched(w0, ov, i, j);
    }
    assert(ov.subrange(0, ov.len() as int) =~= ov);
    lemma_prefix_contains(w0, ov, i, ov.len() as int);
    let a = op_form(ov[i])->Some_0;
    let w = run(w0, ov).0;
    let j = choose|j: int| 0 <= j < w.len() && w[j] == clean_of(a);
    assert(assembled_one(arts, w, code_view(p.code_impls@), j));
    lemma_clean_idempotent(a);
    assert(op_target(ov[i]) == a.name);
}

/// The form of key `k` in `w`, if any.
pub open spec fn entry(w: Seq<ArtifactImView>, k: Seq<u32>) -> Option<ArtifactImView> {
    if find_form(w, k) >= 0 {
        Some(w[find_form(w, k)])
    } else {
        None
    }
}

proof fn lemma_entry_update(w: Seq<ArtifactImView>, i: int, c: ArtifactImView, k: Seq<u32>)
    requires
        0 <= i < w.len(),
        key_of(w[i].name) != k,
        key_of(c.name) != k,
    ensures
        entry(w.update(i, c), k) == entry(w, k),
    decreases w.len(),
{
    let u = w.update(i, c);
    lemma_find_form(w.drop_last(), k);
    lemma_find_form(u.drop_last(), k);
    if i == w.len() - 1 {
        assert(u.drop_last() =~= w.drop_last());
    } else {
        assert(u.drop_last() =~= w.drop_last().update(i, c));
        assert(u.last() == w.last());
        if key_of(w.last().name) != k {
            lemma_entry_update(w.drop_last(), i, c, k);
            lemma_find_form(w.drop_last(), k);
            lemma_find_form(u.drop_last(), k);
        }
    }
}

proof fn lemma_entry_remove(w: Seq<ArtifactImView>, i: int, k: Seq<u32>)
    requires
        0 <= i < w.len(),
        key_of(w[i].name) != k,
    ensures
        entry(w.remove(i), k) == entry(w, k),
    decreases w.len(),
{
    let u = w.remove(i);
    if i == w.len() - 1 {
        assert(u =~= w.drop_last());
        lemma_find_form(w.drop_last(), k);
    } else {
        assert(u.drop_last() =~= w.drop_last().remove(i));
        assert(u.last() == w.last());
        if key_of(w.last().name) != k {
            lemma_entry_remove(w.drop_last(), i, k);
            lemma_find_form(w.drop_last(), k);
            lemma_find_form(u.drop_last(), k);
        }
    }
}

/// An operation about another key leaves the form of `k` as it was.
proof fn lemma_step_entry(w: Seq<ArtifactImView>, t: Set<Seq<u32>>, op: OpView, k: Seq<u32>)
    requires
        key_of(op_target(op)) != k,
    ensures
        entry(step(w, t, op).0, k) == entry(w, k),
{
    lemma_find_form(w, k);
    if !t.contains(key_of(op_target(op))) {
        match op {
            OpView::Create(a) => {
                assert(w.push(clean_of(a)).drop_last() =~= w);
                assert(w.push(clean_of(a)).last() == clean_of(a));
            },
            OpView::Update(a, h) => {
                let q = find_form(w, key_of(clean_of(a).name));
                lemma_find_form(w, key_of(clean_of(a).name));
                if q >= 0 && hash_of(w[q]) == h {
                    lemma_entry_update(w, q, clean_of(a), k);
                }
            },
            OpView::Delete(n, h) => {
                let q = find_form(w, key_of(n));
                lemma_find_form(w, key_of(n));
                if q >= 0 && hash_of(w[q]) == h {
                    lemma_entry_remove(w, q, k);
                }
            },
        }
    }
}

/// A key that no operation of a batch is about keeps its form.
pub proof fn lemma_run_untouched(w0: Seq<ArtifactImView>, ops: Seq<OpView>, k: Seq<u32>)
    requires
        !targets(ops).contains(k),
    ensures
        entry(run(w0, ops).0, k) == entry(w0, k),
    decreases ops.len(),
{
    if ops.len() > 0 {
        assert(!targets(ops.drop_last()).contains(k)) by {
            if targets(ops.drop_last()).contains(k) {
                let j = choose|j: int| 0 <= j < ops.drop_last().len() && key_of(op_target(ops.drop_last()[j])) == k;
                assert(ops[j] == ops.drop_last()[j]);
            }
        }
        assert(key_of(op_target(ops[ops.len() - 1])) != k);
        lemma_run_untouched(w0, ops.drop_last(), k);
        lemma_step_entry(run(w0, ops.drop_last()).0, targets(ops.drop_last()), ops.last(), k);
    }
}

/// A failure in a prefix of a batch stays a failure of the batch.
proof fn lemma_failures_kept(w0: Seq<ArtifactImView>, ops: Seq<OpView>, n: int, f: (int, Seq<char>, FailKind))
    requires
        0 <= n <= ops.len(),
        run(w0, ops.subrange(0, n)).1.contains(f),
    ensures
        run(w0, ops).1.contains(f),
    decreases ops.len() - n,
{
    if n == ops.len() {
        assert(ops.subrange(0, n) =~= ops);
    } else {
        let s1 = ops.subrange(0, n + 1);
        assert(s1.drop_last() =~= ops.subrange(0, n));
        let prev = run(w0, ops.subrange(0, n)).1;
        let j = choose|j: int| 0 <= j < prev.len() && prev[j] == f;
        let st = step(run(w0, ops.subrange(0, n)).0, targets(s1.drop_last()), s1.last());
        if st.1 is Some {
            assert(run(w0, s1).1[j] == f);
        }
        assert(run(w0, s1).1.contains(f));
        lemma_failures_kept(w0, ops, n + 1, f);
    }
}

/// The state of the loaded project that operation `i` of a batch was
/// checked against: the form of its name there, if any.
proof fn lemma_checked_at(w0: Seq<ArtifactImView>, ops: Seq<OpView>, i: int)
    requires
        0 <= i < ops.len(),
        !targets(ops.subrange(0, i)).contains(key_of(op_target(ops[i]))),
    ensures
        ({
            let prev = run(w0, ops.subrange(0, i));
            let s = run(w0, ops.subrange(0, i + 1));
            &&& s.0 == step_fresh(prev.0, ops[i]).0
            &&& s.1 == match step_fresh(prev.0, ops[i]).1 {
                Some(f) => prev.1.push((i, op_target(ops[i]), f)),
                None => prev.1,
            }
            &&& entry(prev.0, key_of(op_target(ops[i]))) == entry(w0, key_of(op_target(ops[i])))
        }),
{
    let s1 = ops.subrange(0, i + 1);
    assert(s1.drop_last() =~= ops.subrange(0, i));
    assert(s1.last() == ops[i]);
    lemma_run_untouched(w0, ops.subrange(0, i), key_of(op_target(ops[i])));
}

/// An update whose expected hash is not that of its artifact in the loaded
/// project (or whose artifact is not there) makes the whole batch fail,
/// with a conflict at its position naming it.
pub proof fn lemma_stale_update_rejected(p: Project, ops: Seq<ArtifactOp>, i: int)
    requires
        p.wf(),
        0 <= i < ops.len(),
        ops[i]@ is Update,
        forall|j: int|
            0 <= j < p.artifacts@.len() && key_of(#[trigger] p.artifacts@[j].name@) == key_of(op_target(ops[i]@))
                ==> p.artifacts@[j].id.0@ != ops[i]@->Update_1,
    ensures
        batch_of(p, ops).1.contains((i, op_target(ops[i]@), FailKind::CasConflict)),
        batch_of(p, ops).1.len() > 0,
{
    let ov = ops_view(ops);
    let w0 = clean_forms(p.artifacts@);
    let k = key_of(op_target(ov[i]));
    assert(ov[i] == ops[i]@);
    let f = (i, op_target(ov[i]), FailKind::CasConflict);
    let s1 = ov.subrange(0, i + 1);
    assert(s1.drop_last() =~= ov.subrange(0, i));
    assert(s1.last() == ov[i]);
    let prev = run(w0, ov.subrange(0, i));
    if !targets(ov.subrange(0, i)).contains(k) {
        lemma_checked_at(w0, ov, i);
        lemma_find_form(prev.0, k);
        lemma_find_form(w0, k);
        if find_form(w0, k) >= 0 {
            let j = find_form(w0, k);
            assert(w0[j] == clean_of(p.artifacts@[j].im_view()));
            assert(key_of(p.artifacts@[j].name@) == k);
        }
        match ov[i] {
            OpView::Update(a, h) => {
                assert(clean_of(a).name == a.name);
            },
            _ => {},
        }
    }
    assert(run(w0, s1).1.last() == f);
    assert(run(w0, s1).1.contains(f));
    lemma_failures_kept(w0, ov, i + 1, f);
}

/// Where a batch succeeds, every operation was checked against the loaded
/// project: a create found no artifact of its name, and an update or delete
/// found one whose identity hash is the hash it expects.
pub proof fn lemma_checked_against_project(p: Project, ops: Seq<ArtifactOp>, i: int)
    requires
        p.wf(),
        batch_of(p, ops).1.len() == 0,
        0 <= i < ops.len(),
    ensures
        match ops[i]@ {
            OpView::Create(a) => forall|j: int|
                0 <= j < p.artifacts@.len() ==> key_of(#[trigger] p.artifacts@[j].name@) != key_of(a.name),
            OpView::Update(a, h) => exists|j: int|
                0 <= j < p.artifacts@.len() && key_of(#[trigger] p.artifacts@[j].name@) == key_of(a.name)
                    && p.artifacts@[j].id.0@ == h,
            OpView::Delete(n, h) => exists|j: int|
                0 <= j < p.artifacts@.len() && key_of(#[trigger] p.artifacts@[j].name@) == key_of(n)
                    && p.artifacts@[j].id.0@ == h,
        },
{
    let ov = ops_view(ops);
    let w0 = clean_forms(p.artifacts@);
    assert(ov[i] == ops[i]@);
    let k = key_of(op_target(ov[i]));
    lemma_prefix_no_fail(w0, ov, i + 1);
    let s1 = ov.subrange(0, i + 1);
    assert(s1.drop_last() =~= ov.subrange(0, i));
    assert(s1.last() == ov[i]);
    let prev = run(w0, ov.subrange(0, i));
    if targets(ov.subrange(0, i)).contains(k) {
        assert(run(w0, s1).1.len() == prev.1.len() + 1);
    }
    lemma_checked_at(w0, ov, i);
    lemma_find_form(prev.0, k);
    lemma_find_form(w0, k);
    if step_fresh(prev.0, ov[i]).1 is Some {
        assert(run(w0, s1).1.len() == prev.1.len() + 1);
    }
    let j = find_form(w0, k);
    if j >= 0 {
        assert(w0[j] == clean_of(p.artifacts@[j].im_view()));
        assert(key_of(p.artifacts@[j].name@) == k);
    }
    match ov[i] {
        OpView::Create(a) => {
            assert(clean_of(a).name == a.name);
            assert forall|q: int| 0 <= q < p.artifacts@.len() implies key_of(#[trigger] p.artifacts@[q].name@)
                != key_of(a.name) by {
                assert(w0[q] == clean_of(p.artifacts@[q].im_view()));
            }
        },
        OpView::Update(a, h) => {
            assert(clean_of(a).name == a.name);
        },
        OpView::Delete(n, h) => {},
    }
}

/// In a batch that succeeds, no operation after `i` is about the name that
/// operation `i` is about.
proof fn lemma_later_untouched(w0: Seq<ArtifactImView>, ops: Seq<OpView>, i: int, j: int)
    requires
        run(w0, ops).1.len() == 0,
        0 <= i < j < ops.len(),
    ensures
        key_of(op_target(ops[j])) != key_of(op_target(ops[i])),
{
    lemma_prefix_no_fail(w0, ops, j + 1);
    let s1 = ops.subrange(0, j + 1);
    assert(s1.drop_last() =~= ops.subrange(0, j));
    assert(s1.last() == ops[j]);
    if key_of(op_target(ops[j])) == key_of(op_target(ops[i])) {
        assert(ops.subrange(0, j)[i] == ops[i]);
        assert(targets(ops.subrange(0, j)).contains(key_of(op_target(ops[j]))));
        assert(run(w0, s1).1.len() == run(w0, ops.subrange(0, j)).1.len() + 1);
    }
}

/// The form of key `k` is kept by operations about other keys.
proof fn lemma_entry_kept(w0: Seq<ArtifactImView>, ops: Seq<OpView>, i: int, n: int, k: Seq<u32>)
    requires
        0 <= i < n <= ops.len(),
        forall|j: int| i < j < n ==> key_of(op_target(#[trigger] ops[j])) != k,
    ensures
        entry(run(w0, ops.subrange(0, n)).0, k) == entry(run(w0, ops.subrange(0, i + 1)).0, k),
    decreases n,
{
    if n > i + 1 {
        lemma_entry_kept(w0, ops, i, n - 1, k);
        let s1 = ops.subrange(0, n);
        assert(s1.drop_last() =~= ops.subrange(0, n - 1));
        assert(s1.last() == ops[n - 1]);
        lemma_step_entry(run(w0, ops.subrange(0, n - 1)).0, targets(ops.subrange(0, n - 1)), ops[n - 1], k);
    }
}

/// Where a batch succeeds, an artifact that one of its operations deleted
/// is not in the project assembled after it.
pub proof fn lemma_batch_delete(p: Project, ops: Seq<ArtifactOp>, arts: Seq<Artifact>, i: int)
    requires
        p.wf(),
        batch_of(p, ops).1.len() == 0,
        assembled(arts, batch_of(p, ops).0, code_view(p.code_impls@)),
        0 <= i < ops.len(),
        ops[i]@ is Delete,
    ensures
        forall|j: int| 0 <= j < arts.len() ==> key_of(#[trigger] arts[j].name@) != key_of(op_target(ops[i]@)),
{
    let ov = ops_view(ops);
    let w0 = clean_forms(p.artifacts@);
    assert(ov[i] == ops[i]@);
    let k = key_of(op_target(ov[i]));
    assert forall|j: int| i < j < ov.len() implies key_of(op_target(#[trigger] ov[j])) != k by {
        lemma_later_untouched(w0, ov, i, j);
    }
    lemma_entry_kept(w0, ov, i, ov.len() as int, k);
    assert(ov.subrange(0, ov.len() as int) =~= ov);
    lemma_prefix_no_fail(w0, ov, i + 1);
    let s1 = ov.subrange(0, i + 1);
    assert(s1.drop_last() =~= ov.subrange(0, i));
    assert(s1.last() == ov[i]);
    let prev = run(w0, ov.subrange(0, i));
    if targets(ov.subrange(0, i)).contains(k) {
        assert(run(w0, s1).1.len() == prev.1.len() + 1);
    }
    if step_fresh(prev.0, ov[i]).1 is Some {
        assert(run(w0, s1).1.len() == prev.1.len() + 1);
    }
    assert(im_names(w0) =~= art_names(p.artifacts@)) by {
        assert forall|q: int| 0 <= q < w0.len() implies im_names(w0)[q] == art_names(p.artifacts@)[q] by {
            assert(w0[q] == clean_of(p.artifacts@[q].im_view()));
        }
    }
    assert forall|q: int| 0 <= q < w0.len() implies #[trigger] clean_of(w0[q]) == w0[q] by {
        lemma_clean_idempotent(p.artifacts@[q].im_view());
    }
    lemma_run_wf(w0, ov.subrange(0, i));
    let w = prev.0;
    let q = find_form(w, k);
    lemma_find_form(w, k);
    let after = w.remove(q);
    assert(run(w0, s1).0 == after);
    lemma_find_form(after, k);
    if find_form(after, k) >= 0 {
        let f = find_form(after, k);
        let f2 = if f >= q { f + 1 } else { f };
        assert(after[f] == w[f2]);
        assert(im_names(w)[f2] == w[f2].name && im_names(w)[q] == w[q].name);
    }
    let fin = run(w0, ov).0;
    lemma_find_form(fin, k);
    assert forall|j: int| 0 <= j < arts.len() implies key_of(#[trigger] arts[j].name@) != k by {
        assert(assembled_one(arts, fin, code_view(p.code_impls@), j));
    }
}

} // verus!
