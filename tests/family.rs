use artifact_lib::family::{auto_partofs, strip_auto_partofs};
use artifact_lib::name::{Name, Type};
use artifact_lib::names::Names;

fn name(s: &str) -> Name {
    Name::from_str(s).unwrap()
}

fn names(v: &[&str]) -> Names {
    let mut out = Names::new();
    for s in v {
        out.insert(name(s));
    }
    out
}

fn texts(n: &Names) -> Vec<String> {
    (0..n.len()).map(|i| n.get(i).as_str().to_string()).collect()
}

#[test]
fn family_example() {
    let n = name("SPC-foo-bar");
    assert_eq!(n.parent().unwrap().as_str(), "SPC-foo");
    assert_eq!(n.auto_partof().unwrap().as_str(), "REQ-foo-bar");
}

#[test]
fn parent_of_root_is_none() {
    assert!(name("REQ-foo").parent().is_none());
    assert!(name("REQ-foo").auto_partof().is_none());
    assert_eq!(name("TST-a-b").auto_partof().unwrap().as_str(), "SPC-a-b");
    assert_eq!(name("tst-a").ty(), Type::TST);
}

#[test]
fn parent_is_shorter() {
    for s in ["REQ-a-b-c", "SPC-x_1-y", "TST-q-r"] {
        let n = name(s);
        let p = n.parent().unwrap();
        assert!(p.as_str().len() < n.as_str().len());
    }
}

#[test]
fn invalid_names() {
    for s in ["", "REQ", "REQ-", "FOO-bar", "REQ--a", "REQ-a-", "REQ-a b", "REQ_a"] {
        let e = Name::from_str(s).unwrap_err();
        assert_eq!(e.text, s);
    }
    assert!(Name::from_str("req-Foo_1-bar2").is_ok());
}

#[test]
fn names_sorted_case_insensitive() {
    let n = names(&["SPC-b", "req-a", "REQ-A", "SPC-a"]);
    assert_eq!(texts(&n), vec!["req-a", "SPC-a", "SPC-b"]);
    assert!(n.contains(&name("spc-B")));
}

#[test]
fn strip_removes_family() {
    let mut p = names(&["REQ-foo-bar", "SPC-other", "SPC-foo"]);
    strip_auto_partofs(&name("SPC-foo-bar"), &mut p);
    assert_eq!(texts(&p), vec!["SPC-other"]);
}

#[test]
fn auto_partofs_only_present() {
    let all = names(&["REQ-a", "REQ-a-b", "SPC-a-b", "TST-a-b", "SPC-c"]);
    let autos = auto_partofs(&all);
    assert_eq!(autos.len(), all.len());
    for (n, a) in &autos {
        let got = texts(a);
        match n.as_str() {
            "REQ-a" => assert!(got.is_empty()),
            "REQ-a-b" => assert_eq!(got, vec!["REQ-a"]),
            "SPC-a-b" => assert_eq!(got, vec!["REQ-a-b"]),
            "TST-a-b" => assert_eq!(got, vec!["SPC-a-b"]),
            "SPC-c" => assert!(got.is_empty()),
            other => panic!("unexpected {}", other),
        }
    }
}

#[test]
fn name_equality_ignores_case() {
    assert_eq!(name("REQ-Foo"), name("req-foo"));
    assert_ne!(name("REQ-foo"), name("SPC-foo"));
    assert_ne!(name("REQ-foo"), name("REQ-foo-bar"));
}
