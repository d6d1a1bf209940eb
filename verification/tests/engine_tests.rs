use license_id::canon::normalize;
use license_id::corpus::{Corpus, LicenseError};
use license_id::engine::{normalize_text, Engine};
use license_id::matcher::best_match;

fn pairs(entries: &[(&str, &str)]) -> Vec<(String, String)> {
    entries.iter().map(|(n, t)| (n.to_string(), t.to_string())).collect()
}

const MIT_TEXT: &str = "MIT License\n\nCopyright (c) 2000 Jane Doe\n\nPermission is hereby granted, free of charge, to any person obtaining a copy\nof this software and associated documentation files (the \"Software\"), to deal\nin the Software without restriction, including without limitation the rights\nto use, copy, modify, merge, publish, distribute, sublicense, and/or sell\ncopies of the Software.\n\nTHE SOFTWARE IS PROVIDED \"AS IS\", WITHOUT WARRANTY OF ANY KIND, EXPRESS OR\nIMPLIED, INCLUDING BUT NOT LIMITED TO THE WARRANTIES OF MERCHANTABILITY.\n";

const APACHE_TEXT: &str = "Apache License\nVersion 2.0, January 2004\nhttp://www.apache.org/licenses/\n\nTERMS AND CONDITIONS FOR USE, REPRODUCTION, AND DISTRIBUTION\n\n1. Definitions.\n\n\"License\" shall mean the terms and conditions for use, reproduction,\nand distribution as defined by Sections 1 through 9 of this document.\n\nLicensed under the Apache License, Version 2.0 (the \"License\");\nyou may not use this file except in compliance with the License.\n";

#[test]
fn normalize_collapses_whitespace_and_case() {
    assert_eq!(normalize_text("  Hello   World "), "hello world");
    assert_eq!(normalize_text("A\tB\r"), "a b");
    assert_eq!(normalize_text("MIT License"), "mit license");
}

#[test]
fn normalize_strips_outer_blank_lines_keeps_inner() {
    assert_eq!(normalize_text("\n\n  a  \n\n\n b\n\n"), "a\n\n\nb");
    assert_eq!(normalize_text(""), "");
    assert_eq!(normalize_text("\n \t \n"), "");
}

#[test]
fn normalize_folds_the_whole_alphabet() {
    // Two one-letter texts differing only in letter case normalize
    // identically, beyond ASCII.
    assert_eq!(normalize_text("\u{C9}"), normalize_text("\u{E9}"));
    assert_eq!(normalize_text("\u{C9}"), "\u{E9}");
    assert_eq!(normalize_text("H\u{D6}LLE"), "h\u{F6}lle");
    assert_eq!(normalize_text("\u{0130}"), "i\u{307}");
    // Case and whitespace noise together cannot change the canonical form.
    assert_eq!(
        normalize_text("  Stra\u{DF}e   FREI \n"),
        normalize_text("stra\u{DF}e frei")
    );
}

#[test]
fn normalize_treats_unicode_whitespace_as_whitespace() {
    // No-break space, em space and ideographic space collapse like ASCII
    // blanks and are trimmed at the ends.
    assert_eq!(normalize_text("a\u{A0}b"), "a b");
    assert_eq!(normalize_text("\u{2003}a \u{A0} b\u{3000}"), "a b");
    assert_eq!(normalize_text("\u{A0}\n\u{2028}x"), "x");
}

#[test]
fn normalize_is_idempotent() {
    let samples = [
        "  Hello   World ",
        "\n\nA\n\nB\t\tC\n\n",
        MIT_TEXT,
        APACHE_TEXT,
        "",
        "one\ntwo\nthree",
        "GRO\u{DF}E \u{C9}COLE\u{A0}\u{2003}B\n\n\u{0130}stanbul",
    ];
    for t in samples {
        let once = normalize_text(t);
        let twice = normalize_text(&once);
        assert_eq!(twice, once);
    }
}

#[test]
fn identify_is_deterministic() {
    let engine = Engine::new(&pairs(&[("MIT", MIT_TEXT), ("Apache-2.0", APACHE_TEXT)])).unwrap();
    let query = "permission is hereby granted to use this software";
    let a = engine.identify(query).unwrap();
    let b = engine.identify(query).unwrap();
    assert_eq!(a.name(), b.name());
    assert_eq!(a.score_num(), b.score_num());
    assert_eq!(a.score_den(), b.score_den());
    assert_eq!(a.license_text(), b.license_text());
}

#[test]
fn self_match_scores_one() {
    let engine = Engine::new(&pairs(&[("MIT", MIT_TEXT), ("Apache-2.0", APACHE_TEXT)])).unwrap();
    let m = engine.identify(MIT_TEXT).unwrap();
    assert_eq!(m.name(), "MIT");
    assert_eq!(m.score_num(), m.score_den());
    assert_eq!(m.license_text(), MIT_TEXT);
    let m = engine.identify(APACHE_TEXT).unwrap();
    assert_eq!(m.name(), "Apache-2.0");
    assert_eq!(m.score_num(), m.score_den());
}

#[test]
fn end_to_end_example() {
    let engine = Engine::new(&pairs(&[("MIT", MIT_TEXT), ("Apache-2.0", APACHE_TEXT)])).unwrap();
    let m = engine.identify(APACHE_TEXT).unwrap();
    assert_eq!(m.name(), "Apache-2.0");
    assert_eq!(m.score_num(), m.score_den());
    assert_eq!((m.score_num() as f64) / (m.score_den() as f64), 1.0);

    let m = engine.identify("some unrelated prose about cooking").unwrap();
    // A score well below any reasonable match threshold: under 0.3.
    assert!((m.score_num() as u128) * 10 < (m.score_den() as u128) * 3);
    assert!(m.name() == "MIT" || m.name() == "Apache-2.0");
}

#[test]
fn monotonic_degradation() {
    let engine = Engine::new(&pairs(&[("MIT", MIT_TEXT)])).unwrap();
    let clean = engine.identify(MIT_TEXT).unwrap();
    let noisy_text = format!("{}\nqq zz unrelated trailing noise qq zz", MIT_TEXT);
    let noisy = engine.identify(&noisy_text).unwrap();
    // noisy score <= clean score, compared as rationals.
    assert!(
        (noisy.score_num() as u128) * (clean.score_den() as u128)
            <= (clean.score_num() as u128) * (noisy.score_den() as u128)
    );
    // And the noisy score is still strictly below the exact match.
    assert!(noisy.score_num() < noisy.score_den());
}

#[test]
fn tie_break_is_lexicographic() {
    let text = "identical license text for both entries";
    let engine = Engine::new(&pairs(&[("b-license", text), ("a-license", text)])).unwrap();
    let m = engine.identify(text).unwrap();
    assert_eq!(m.name(), "a-license");
    assert_eq!(m.score_num(), m.score_den());
}

#[test]
fn unknown_name_is_not_found() {
    let engine = Engine::new(&pairs(&[("MIT", MIT_TEXT)])).unwrap();
    assert!(engine.get_original("Definitely-Not-A-License").is_none());
}

#[test]
fn get_original_returns_untouched_text() {
    let engine = Engine::new(&pairs(&[("MIT", MIT_TEXT), ("Apache-2.0", APACHE_TEXT)])).unwrap();
    assert_eq!(engine.get_original("MIT").unwrap(), MIT_TEXT);
    assert_eq!(engine.get_original("Apache-2.0").unwrap(), APACHE_TEXT);
}

#[test]
fn licenses_are_sorted_and_complete() {
    let engine = Engine::new(&pairs(&[
        ("MIT", MIT_TEXT),
        ("Apache-2.0", APACHE_TEXT),
        ("0BSD", "zero clause bsd"),
    ]))
    .unwrap();
    let names = engine.licenses();
    assert_eq!(names, vec!["0BSD".to_string(), "Apache-2.0".to_string(), "MIT".to_string()]);
}

#[test]
fn duplicate_name_is_refused() {
    let r = Engine::new(&pairs(&[("MIT", "text one"), ("MIT", "text two")]));
    assert!(matches!(r, Err(LicenseError::DuplicateName)));
    let r = Corpus::build(&pairs(&[("X", "same"), ("Y", "other"), ("X", "same")]));
    assert!(matches!(r, Err(LicenseError::DuplicateName)));
}

#[test]
fn empty_corpus_fails_to_match() {
    let corpus = Corpus::build(&Vec::new()).unwrap();
    let q = normalize("anything");
    let r = best_match(&q, &corpus);
    assert!(matches!(r, Err(LicenseError::EmptyCorpus)));

    let engine = Engine::new(&Vec::new()).unwrap();
    assert!(matches!(engine.identify("anything"), Err(LicenseError::EmptyCorpus)));
}

#[test]
fn empty_query_is_legal() {
    let engine = Engine::new(&pairs(&[("MIT", MIT_TEXT), ("Apache-2.0", APACHE_TEXT)])).unwrap();
    let m = engine.identify("").unwrap();
    // Defined, deterministic, and low: an empty query matches nothing.
    assert!(m.score_num() < m.score_den());
    assert!(m.name() == "MIT" || m.name() == "Apache-2.0");
}
