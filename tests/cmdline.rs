use artifact_lib::cmdline::{_get_percent, get_percent, PercentSearch};

#[test]
fn test_get_percent() {
    // correct
    assert_eq!(_get_percent(""), Ok((None, None)));
    assert_eq!(_get_percent("<"), Ok((Some(true), None)));
    assert_eq!(_get_percent(">"), Ok((Some(false), None)));
    assert_eq!(_get_percent("<10"), Ok((Some(true), Some(10))));
    assert_eq!(_get_percent(">100"), Ok((Some(false), Some(100))));

    // test full struct
    assert_eq!(get_percent(""), Ok(PercentSearch { lt: false, perc: 100 }));
    assert_eq!(get_percent("<"), Ok(PercentSearch { lt: true, perc: 0 }));
    assert_eq!(get_percent(">"), Ok(PercentSearch { lt: false, perc: 100 }));
    assert_eq!(get_percent("89"), Ok(PercentSearch { lt: false, perc: 89 }));
    assert_eq!(get_percent(">89"), Ok(PercentSearch { lt: false, perc: 89 }));
    assert_eq!(get_percent("<89"), Ok(PercentSearch { lt: true, perc: 89 }));

    // invalid
    assert!(get_percent(">101").is_err());
    assert!(get_percent(">-1").is_err());
    assert!(get_percent("a").is_err());
    assert!(get_percent("<a").is_err());
}

#[test]
fn percent_edges() {
    assert_eq!(_get_percent("<+5"), Ok((Some(true), Some(5))));
    assert_eq!(_get_percent("0"), Ok((None, Some(0))));
    assert!(_get_percent("256").is_err());
    assert!(_get_percent("<+").is_err());
    assert!(_get_percent("1000").is_err());
    assert!(_get_percent("5a").is_err());
}
