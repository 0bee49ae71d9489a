use latex_index::dict::{lookup, table_len, title_at, DocKind};

#[test]
fn lookup_known_package() {
    let e = lookup("amsmath").expect("amsmath must be in the dictionary");
    assert_eq!(e.title, "amsmath");
    assert_eq!(e.kind, DocKind::Package);
    assert!(e.short.contains("math"));
}

#[test]
fn lookup_unknown_returns_none() {
    assert!(lookup("not-a-real-package-name").is_none());
    assert!(lookup("").is_none());
}

#[test]
fn entries_are_sorted() {
    for i in 1..table_len() {
        let a = title_at(i - 1);
        let b = title_at(i);
        assert!(
            a.to_ascii_lowercase() < b.to_ascii_lowercase(),
            "dict entries must be sorted (case-insensitive) by title; got {:?} before {:?}",
            a,
            b
        );
    }
}

#[test]
fn no_duplicate_titles() {
    for i in 1..table_len() {
        let a = title_at(i - 1);
        let b = title_at(i);
        assert_ne!(
            a.to_ascii_lowercase(),
            b.to_ascii_lowercase(),
            "duplicate dict title: {}",
            a
        );
    }
}

#[test]
fn lookup_is_case_insensitive() {
    let e = lookup("AmSMath").expect("case-insensitive lookup");
    assert_eq!(e.title, "amsmath");
}

#[test]
fn every_title_is_found() {
    for i in 0..table_len() {
        let t = title_at(i);
        let e = lookup(t).expect("each title must be found");
        assert_eq!(e.title, t);
    }
}
