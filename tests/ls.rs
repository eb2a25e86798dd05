use artifact_lib::ls::Flags;

fn from_str(s: &str) -> Flags {
    Flags::from_str(s).unwrap()
}

#[test]
fn test_flags_str() {
    let mut flags = Flags::default();
    assert_eq!(flags, from_str(""));
    assert_eq!(flags, from_str("NP"));
    assert_eq!(flags, from_str("N,parts"));
    assert_eq!(flags, from_str("name,parts"));
    assert_eq!(flags, from_str("AFOCT"));
    flags.text = true;
    assert_eq!(flags, from_str("NTP"));
    assert_eq!(flags, from_str("TNP"));
    assert_eq!(flags, from_str("text,parts,name"));
    flags.parts = false;
    flags.text = false;
    assert_eq!(flags, from_str("N"));
    assert_eq!(flags, from_str("name"));
}

#[test]
fn flags_unknown_field() {
    let e = Flags::from_str("name,bogus").unwrap_err();
    assert_eq!(e.field, "bogus");
    let e = Flags::from_str("NX").unwrap_err();
    assert_eq!(e.field, "X");
}

#[test]
fn flags_all_inverts() {
    let f = Flags::from_str("all,name").unwrap();
    assert!(!f.name);
    assert!(f.file && f.parts && f.partof && f.code && f.text);
}

#[test]
fn flags_empty_words_ignored() {
    assert_eq!(Flags::from_str(",,name,").unwrap(), from_str("N"));
}
