use artifact_lib::im::{ArtifactIm, HashIm, HashTextError};
use artifact_lib::implemented::{CodeLoc, Impl, ImplCode, SubName};
use artifact_lib::name::Name;
use artifact_lib::names::Names;
use artifact_lib::ops::{modify_project, ArtifactOp, FailKind};
use artifact_lib::project::{Completed, Project, ProjectPaths, Ratio};
use artifact_lib::raw::ArtifactRaw;
use artifact_lib::subnames::parse_subnames;
use artifact_lib::text::{clean_text, string_trim_right};

fn name(s: &str) -> Name {
    Name::from_str(s).unwrap()
}

fn names(v: &[&str]) -> Names {
    let mut out = Names::new();
    for s in v {
        out.insert(name(s));
    }
    out
}

fn texts(n: &Names) -> Vec<String> {
    (0..n.len()).map(|i| n.get(i).as_str().to_string()).collect()
}

fn im(n: &str, partof: &[&str], done: Option<&str>, text: &str) -> ArtifactIm {
    ArtifactIm {
        name: name(n),
        file: "/fake/design.toml".to_string(),
        partof: names(partof),
        done: done.map(|d| d.to_string()),
        text: text.to_string(),
    }
}

fn paths() -> ProjectPaths {
    ProjectPaths {
        base: "/fake".to_string(),
        code_paths: vec![],
        exclude_code_paths: vec![],
        artifact_paths: vec![],
        exclude_artifact_paths: vec![],
    }
}

fn project(raw: Vec<ArtifactIm>) -> Project {
    Project::assemble(raw, vec![], paths())
}

fn art<'a>(p: &'a Project, n: &str) -> &'a artifact_lib::project::Artifact {
    let i = p.find(&name(n)).unwrap();
    &p.artifacts[i]
}

#[test]
fn clean_strips_auto_partof() {
    let mut a = im("SPC-foo-bar", &["REQ-foo-bar", "SPC-other"], None, "text  \n\n");
    a.clean();
    assert_eq!(texts(&a.partof), vec!["SPC-other"]);
    assert_eq!(a.text, "text");
}

#[test]
fn clean_is_idempotent() {
    let mut a = im("TST-a-b", &["SPC-a-b", "TST-a", "REQ-z"], Some("yes"), "line one\nline two \t\n\n");
    a.clean();
    assert_eq!(a.text, "line one\nline two\n");
    let h1 = a.hash_im();
    let mut b = a.clone();
    b.clean();
    assert_eq!(texts(&b.partof), texts(&a.partof));
    assert_eq!(b.text, a.text);
    assert_eq!(b.hash_im(), h1);
}

#[test]
fn text_cleaning() {
    let mut s = "abc \t ".to_string();
    string_trim_right(&mut s);
    assert_eq!(s, "abc");
    let mut s = "a\nb\n\n   ".to_string();
    clean_text(&mut s);
    assert_eq!(s, "a\nb\n");
    let mut s = "   ".to_string();
    clean_text(&mut s);
    assert_eq!(s, "");
    let mut s = "x\u{3000}".to_string();
    clean_text(&mut s);
    assert_eq!(s, "x");
}

#[test]
fn hash_depends_on_fields() {
    let a = im("REQ-a", &[], None, "one");
    let b = im("REQ-a", &[], None, "two");
    let c = im("req-a", &[], None, "one");
    let d = im("REQ-a", &["REQ-b"], None, "one");
    let e = im("REQ-a", &[], Some(""), "one");
    let h = a.hash_im();
    assert_ne!(h, b.hash_im());
    assert_ne!(h, c.hash_im());
    assert_ne!(h, d.hash_im());
    assert_ne!(h, e.hash_im());
    assert_eq!(h, im("REQ-a", &[], None, "one").hash_im());
    assert_ne!(h, HashIm::default());
}

#[test]
fn partof_hash_is_by_key() {
    let a = im("REQ-a", &["REQ-b"], None, "t");
    let b = im("REQ-a", &["req-B"], None, "t");
    assert_eq!(a.hash_im(), b.hash_im());
}

#[test]
fn hash_text_round_trip() {
    let h = im("REQ-a", &[], None, "one").hash_im();
    let s = h.encode();
    assert_eq!(s.len(), 22);
    assert!(!s.contains('='));
    assert!(!s.contains('+') && !s.contains('/'));
    assert_eq!(HashIm::decode(&s).unwrap(), h);
    assert_eq!(HashIm::default().encode(), "AAAAAAAAAAAAAAAAAAAAAA");
    assert_eq!(HashIm([0xfb; 16]).encode(), "-_v7-_v7-_v7-_v7-_v7-w");
}

#[test]
fn hash_text_errors() {
    assert_eq!(HashIm::decode("not base64!"), Err(HashTextError::NotBase64));
    assert_eq!(HashIm::decode("AAAA"), Err(HashTextError::WrongLength));
    assert_eq!(HashIm::decode("AAAAAAAAAAAAAAAAAAAAAB"), Err(HashTextError::NotBase64));
    assert_eq!(HashIm::decode("AAAAAAAAAAAAAAAAAAAAAAAA"), Err(HashTextError::WrongLength));
}

#[test]
fn code_completion_contribution() {
    let code = ImplCode {
        primary: Some(CodeLoc::new(&"/src/lib.rs".to_string(), 10)),
        secondary: vec![
            (SubName { raw: ".a".to_string() }, CodeLoc::new(&"/src/a.rs".to_string(), 1)),
            (SubName { raw: ".b".to_string() }, CodeLoc::new(&"/src/b.rs".to_string(), 2)),
        ],
    };
    let subs = vec![
        SubName { raw: ".a".to_string() },
        SubName { raw: ".b".to_string() },
        SubName { raw: ".c".to_string() },
    ];
    assert_eq!(Impl::Code(code).to_statistics(&subs), (4, 3, 0, 0));
}

#[test]
fn done_and_notimpl_contributions() {
    let subs = vec![SubName { raw: ".a".to_string() }];
    assert_eq!(Impl::Done("by hand".to_string()).to_statistics(&subs), (1, 1, 1, 1));
    assert_eq!(Impl::NotImpl.to_statistics(&subs), (2, 0, 0, 0));
    assert_eq!(Impl::NotImpl.to_statistics(&vec![]), (0, 0, 0, 0));
    assert!(Impl::Done(String::new()).is_done());
    assert!(!Impl::NotImpl.is_done());
}

#[test]
fn subnames_in_text() {
    let subs = parse_subnames("see [[.foo]] and [[.bar_1]], again [[.foo]]; not [[foo]] or [[.]] or [[.a b]]");
    let raws: Vec<&str> = subs.iter().map(|s| s.raw.as_str()).collect();
    assert_eq!(raws, vec![".foo", ".bar_1"]);
}

#[test]
fn assembly_links_and_parts() {
    let p = project(vec![
        im("REQ-a", &[], None, "the req"),
        im("SPC-a", &["REQ-x"], None, "spec [[.one]] [[.two]]"),
        im("TST-a", &[], Some("tested"), ""),
        im("SPC-a-b", &[], None, ""),
    ]);
    assert_eq!(texts(&art(&p, "SPC-a").partof), vec!["REQ-a", "REQ-x"]);
    assert_eq!(texts(&art(&p, "REQ-a").parts), vec!["SPC-a"]);
    assert_eq!(texts(&art(&p, "SPC-a").parts), vec!["SPC-a-b", "TST-a"]);
    assert_eq!(texts(&art(&p, "SPC-a-b").partof), vec!["SPC-a"]);
    for x in &p.artifacts {
        for y in &p.artifacts {
            assert_eq!(x.parts.contains(&y.name), y.partof.contains(&x.name));
        }
    }
    let s = art(&p, "SPC-a");
    assert_eq!(s.subnames.len(), 2);
    assert_eq!((s.completed.spc.value, s.completed.spc.count), (0, 3));
    let t = art(&p, "TST-a");
    assert!(t.impl_.is_done());
    assert_eq!((t.completed.tst.value, t.completed.tst.count), (1, 1));
    for x in &p.artifacts {
        assert_eq!(x.id, ArtifactIm::from_artifact(x).hash_im());
    }
}

#[test]
fn assembly_attaches_code() {
    let code = ImplCode { primary: Some(CodeLoc::new(&"/src/x.rs".to_string(), 3)), secondary: vec![] };
    let p = Project::assemble(vec![im("SPC-x", &[], None, "")], vec![(name("spc-X"), code)], paths());
    let a = &p.artifacts[0];
    match &a.impl_ {
        Impl::Code(c) => assert_eq!(c.primary.as_ref().unwrap().line, 3),
        _ => panic!("expected code"),
    }
    assert_eq!((a.completed.spc.value, a.completed.spc.count), (1, 1));
}

#[test]
fn modify_round_trip() {
    let mut p = project(vec![im("REQ-a", &[], None, "old"), im("REQ-b", &[], None, "b")]);
    let orig = art(&p, "REQ-a").id;
    let mut new_a = im("REQ-a", &["REQ-b"], None, "new text \n");
    let ops = vec![
        ArtifactOp::Update { artifact: new_a.clone(), orig_id: orig },
        ArtifactOp::Create { artifact: im("SPC-a", &["REQ-a"], None, "spec") },
        ArtifactOp::Delete { name: name("REQ-b"), orig_id: art(&p, "REQ-b").id },
    ];
    assert!(modify_project(&mut p, &ops).is_ok());
    assert_eq!(p.artifacts.len(), 2);
    new_a.clean();
    let back = ArtifactIm::from_artifact(art(&p, "REQ-a"));
    assert_eq!(back.text, "new text");
    assert_eq!(texts(&back.partof), texts(&new_a.partof));
    assert_eq!(back.hash_im(), new_a.hash_im());
    assert_eq!(texts(&art(&p, "SPC-a").partof), vec!["REQ-a"]);
    assert!(texts(&ArtifactIm::from_artifact(art(&p, "SPC-a")).partof).is_empty());
    assert!(p.find(&name("REQ-b")).is_none());
}

#[test]
fn modify_cas_conflict_rejects_batch() {
    let mut p = project(vec![im("REQ-a", &[], None, "a")]);
    let before: Vec<String> = p.artifacts.iter().map(|a| a.text.clone()).collect();
    let stale = im("REQ-a", &[], None, "older").hash_im();
    let ops = vec![
        ArtifactOp::Create { artifact: im("REQ-new", &[], None, "") },
        ArtifactOp::Update { artifact: im("REQ-a", &[], None, "changed"), orig_id: stale },
    ];
    let errs = modify_project(&mut p, &ops).unwrap_err();
    assert_eq!(errs.len(), 1);
    assert_eq!(errs[0].index, 1);
    assert_eq!(errs[0].name.as_str(), "REQ-a");
    assert_eq!(errs[0].kind, FailKind::CasConflict);
    let after: Vec<String> = p.artifacts.iter().map(|a| a.text.clone()).collect();
    assert_eq!(before, after);
    assert!(p.find(&name("REQ-new")).is_none());
}

#[test]
fn modify_reports_every_failure() {
    let mut p = project(vec![im("REQ-a", &[], None, "a")]);
    let id = art(&p, "REQ-a").id;
    let ops = vec![
        ArtifactOp::Create { artifact: im("req-A", &[], None, "") },
        ArtifactOp::Delete { name: name("REQ-missing"), orig_id: id },
        ArtifactOp::Update { artifact: im("REQ-gone", &[], None, ""), orig_id: id },
    ];
    let errs = modify_project(&mut p, &ops).unwrap_err();
    let kinds: Vec<(usize, FailKind)> = errs.iter().map(|e| (e.index, e.kind)).collect();
    assert_eq!(
        kinds,
        vec![(0, FailKind::DuplicateCreate), (1, FailKind::CasConflict), (2, FailKind::CasConflict)]
    );
}

#[test]
fn id_pieces_of_ops() {
    let a = im("REQ-a", &[], None, "x");
    let h = a.hash_im();
    let p = ArtifactOp::Create { artifact: a.clone() }.id_pieces();
    assert_eq!(p.name.as_str(), "REQ-a");
    assert!(p.orig_id.is_none());
    assert_eq!(p.new_id, Some(h));
    let d = ArtifactOp::Delete { name: name("REQ-a"), orig_id: h }.id_pieces();
    assert_eq!(d.orig_id, Some(h));
    assert!(d.new_id.is_none());
    let mut op = ArtifactOp::Update { artifact: im("SPC-a", &["REQ-a"], None, "y\n"), orig_id: h };
    op.clean();
    match &op {
        ArtifactOp::Update { artifact, .. } => {
            assert!(artifact.partof.is_empty());
            assert_eq!(artifact.text, "y");
        }
        _ => panic!(),
    }
}

#[test]
fn project_sort_orders_by_name() {
    let mut p = project(vec![
        im("TST-b", &[], None, ""),
        im("req-b", &[], None, ""),
        im("REQ-a", &[], None, ""),
        im("SPC-b", &[], None, ""),
    ]);
    let parts_before = texts(&art(&p, "REQ-b").parts);
    p.sort();
    let order: Vec<&str> = p.artifacts.iter().map(|a| a.name.as_str()).collect();
    assert_eq!(order, vec!["REQ-a", "req-b", "SPC-b", "TST-b"]);
    assert_eq!(texts(&art(&p, "REQ-b").parts), parts_before);
}

#[test]
fn raw_record_round_trip() {
    let a = im("SPC-a-b", &["REQ-a-b", "SPC-a", "REQ-z"], Some("done"), "body \n");
    let (file, n, raw) = a.clone().into_raw();
    assert_eq!(file, "/fake/design.toml");
    assert_eq!(n.as_str(), "SPC-a-b");
    assert_eq!(raw.text.as_deref(), Some("body \n"));
    let mut back = ArtifactIm::from_raw(n, file, raw);
    assert_eq!(texts(&back.partof), vec!["REQ-z"]);
    let mut orig = a;
    orig.clean();
    back.clean();
    assert_eq!(back.hash_im(), orig.hash_im());

    let empty = ArtifactIm::from_raw(name("REQ-e"), "/f".to_string(), ArtifactRaw { done: None, partof: None, text: None });
    assert!(empty.partof.is_empty());
    assert_eq!(empty.text, "");
    let (_, _, raw) = empty.into_raw();
    assert!(raw.partof.is_none() && raw.text.is_none() && raw.done.is_none());
}

#[test]
fn completion_bands() {
    let c = |sv: usize, sc: usize, tv: usize, tc: usize| Completed {
        spc: Ratio { value: sv, count: sc },
        tst: Ratio { value: tv, count: tc },
    };
    // about 33% specified, fully tested
    assert_eq!(c(1, 3, 1, 1).spc_points(), 0);
    assert_eq!(c(1, 3, 1, 1).tst_points(), 2);
    assert_eq!(c(1, 20, 0, 1).spc_points(), 0);
    assert_eq!(c(1, 20, 0, 1).tst_points(), 0);
    assert_eq!(c(7, 10, 1, 2).spc_points(), 2);
    assert_eq!(c(7, 10, 1, 2).tst_points(), 1);
    assert_eq!(c(2, 5, 0, 0).spc_points(), 1);
    assert_eq!(c(0, 0, 0, 0).spc_points(), 0);
    assert_eq!(c(4, 4, 3, 3).spc_points(), 3);
    assert_eq!(c(usize::MAX, usize::MAX, 1, 3).spc_points(), 3);
}

#[test]
fn modify_second_op_on_same_name_conflicts() {
    let mut p = project(vec![im("REQ-a", &[], None, "a")]);
    let id = art(&p, "REQ-a").id;
    let ops = vec![
        ArtifactOp::Update { artifact: im("REQ-a", &[], None, "b"), orig_id: id },
        ArtifactOp::Update { artifact: im("REQ-a", &[], None, "c"), orig_id: im("REQ-a", &[], None, "b").hash_im() },
        ArtifactOp::Delete { name: name("REQ-x"), orig_id: id },
        ArtifactOp::Create { artifact: im("REQ-x", &[], None, "") },
    ];
    let errs = modify_project(&mut p, &ops).unwrap_err();
    let kinds: Vec<(usize, &str, FailKind)> = errs.iter().map(|e| (e.index, e.name.as_str(), e.kind)).collect();
    assert_eq!(
        kinds,
        vec![(1, "REQ-a", FailKind::CasConflict), (2, "REQ-x", FailKind::CasConflict), (3, "REQ-x", FailKind::CasConflict)]
    );
    assert_eq!(art(&p, "REQ-a").text, "a");
}

#[test]
fn project_sort_orders_within() {
    let sub = |s: &str| SubName { raw: s.to_string() };
    let loc = |l: u64| CodeLoc::new(&"/src/x.rs".to_string(), l);
    let code = |secondary: Vec<(SubName, CodeLoc)>| ImplCode { primary: None, secondary };
    let mut p = Project::assemble(
        vec![im("SPC-b", &[], None, "[[.z]] [[.a]] [[.m]]"), im("SPC-a", &[], None, "")],
        vec![
            (name("SPC-b"), code(vec![(sub(".z"), loc(1)), (sub(".a"), loc(2))])),
            (name("spc-A"), code(vec![])),
        ],
        paths(),
    );
    p.sort();
    let order: Vec<&str> = p.code_impls.iter().map(|c| c.0.as_str()).collect();
    assert_eq!(order, vec!["spc-A", "SPC-b"]);
    let secs: Vec<(&str, u64)> = p.code_impls[1].1.secondary.iter().map(|(s, l)| (s.raw.as_str(), l.line)).collect();
    assert_eq!(secs, vec![(".a", 2), (".z", 1)]);
    let b = art(&p, "SPC-b");
    let subs: Vec<&str> = b.subnames.iter().map(|s| s.raw.as_str()).collect();
    assert_eq!(subs, vec![".a", ".m", ".z"]);
    match &b.impl_ {
        Impl::Code(c) => {
            let keys: Vec<&str> = c.secondary.iter().map(|(s, _)| s.raw.as_str()).collect();
            assert_eq!(keys, vec![".a", ".z"]);
        }
        _ => panic!("expected code"),
    }
    let names: Vec<&str> = p.artifacts.iter().map(|a| a.name.as_str()).collect();
    assert_eq!(names, vec!["SPC-a", "SPC-b"]);
}
