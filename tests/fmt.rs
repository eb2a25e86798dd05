use artifact_lib::fmt::{first_paragraph, fmt_artifact, names, FmtSettings};
use artifact_lib::im::ArtifactIm;
use artifact_lib::name::Name;
use artifact_lib::names::Names;
use artifact_lib::project::{Project, ProjectPaths};

fn name(s: &str) -> Name {
    Name::from_str(s).unwrap()
}

fn im(n: &str, text: &str) -> ArtifactIm {
    ArtifactIm {
        name: name(n),
        file: format!("/fake/{}.toml", n),
        partof: Names::new(),
        done: None,
        text: text.to_string(),
    }
}

fn project() -> Project {
    let paths = ProjectPaths {
        base: "/fake".to_string(),
        code_paths: vec![],
        exclude_code_paths: vec![],
        artifact_paths: vec![],
        exclude_artifact_paths: vec![],
    };
    Project::assemble(
        vec![
            im("REQ-a", "  first line \n second line\n\n later"),
            im("REQ-a-b", "child"),
            im("SPC-a", "spec"),
            im("TST-a", "test"),
        ],
        vec![],
        paths,
    )
}

#[test]
fn names_joined() {
    let a = name("REQ-a");
    let b = name("SPC-b");
    assert_eq!(names(&vec![]), "");
    assert_eq!(names(&vec![&a]), "REQ-a");
    assert_eq!(names(&vec![&a, &b]), "REQ-a, SPC-b");
}

#[test]
fn first_paragraph_of_text() {
    assert_eq!(first_paragraph("  first line \n second line\n\n later"), "first line second line ");
    assert_eq!(first_paragraph(""), "");
    assert_eq!(first_paragraph("one"), "one ");
}

#[test]
fn fmt_selected_fields() {
    let p = project();
    let mut set = FmtSettings::default();
    set.path = true;
    set.text = true;
    set.parts = true;
    set.partof = true;
    let mut displayed = Names::new();
    let f = fmt_artifact(&name("REQ-a"), &p, &set, 0, &mut displayed);
    assert_eq!(f.name.as_str(), "REQ-a");
    assert_eq!(f.path.as_deref(), Some("/fake/REQ-a.toml"));
    assert_eq!(f.text.as_deref(), Some("first line second line "));
    let parts: Vec<&str> = f.parts.as_ref().unwrap().iter().map(|x| x.name.as_str()).collect();
    assert_eq!(parts, vec!["REQ-a-b", "SPC-a"]);
    assert!(f.parts.as_ref().unwrap()[0].text.is_none());
    assert!(f.partof.unwrap().is_empty());
    assert!(f.loc_path.is_none());
}

#[test]
fn fmt_recurses_once_per_artifact() {
    let p = project();
    let mut set = FmtSettings::default();
    set.parts = true;
    set.text = true;
    set.long = true;
    let mut displayed = Names::new();
    let f = fmt_artifact(&name("REQ-a"), &p, &set, 2, &mut displayed);
    let parts = f.parts.unwrap();
    let spc = &parts[1];
    assert_eq!(spc.text.as_deref(), Some("spec"));
    let sub: Vec<&str> = spc.parts.as_ref().unwrap().iter().map(|x| x.name.as_str()).collect();
    assert_eq!(sub, vec!["TST-a"]);
    assert!(displayed.contains(&name("SPC-a")));
    assert!(displayed.contains(&name("TST-a")));
}
