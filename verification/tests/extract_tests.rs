use yarn_lock_diff::{extract_yarn_metadata, get_packages, LockfileError, ParseError};

#[test]
fn returns_error_on_invalid_lockfile() {
    let yarn_lock = r#"invalid"#;

    assert!(extract_yarn_metadata(yarn_lock).is_err());
}

#[test]
fn get_package_versions() {
    let yarn_lock = r#"
    __metadata:
        version: 6
        cacheKey: 8

    "@aashutoshrathi/word-wrap@npm:^1.2.3":
        version: 1.2.6
        resolution: "@aashutoshrathi/word-wrap@npm:1.2.6::__archiveUrl=https%3A%2F%2Fpackages.atlassian.com%2Fapi%2Fnpm%2Fnpm-remote%2F%40aashutoshrathi%2Fword-wrap%2F-%2Fword-wrap-1.2.6.tgz"
        checksum: ada901b9e7c680d190f1d012c84217ce0063d8f5c5a7725bb91ec3c5ed99bb7572680eb2d2938a531ccbaec39a95422fcd8a6b4a13110c7d98dd75402f66a0cd
        languageName: node
        linkType: hard
    "#;

    let map = extract_yarn_metadata(yarn_lock).unwrap();
    assert_eq!(map.package_count(), 1);
    assert_eq!(map.version_count("@aashutoshrathi/word-wrap"), 1);
    assert!(map.has_version("@aashutoshrathi/word-wrap", "1.2.6"));
}

#[test]
fn ignore_local_versions() {
    let yarn_lock = r#"
    __metadata:
        version: 6
        cacheKey: 8

    "@aashutoshrathi/word-wrap@npm:^1.2.3":
        version: 1.2.6
        resolution: "@aashutoshrathi/word-wrap@npm:1.2.6::__archiveUrl=https%3A%2F%2Fpackages.atlassian.com%2Fapi%2Fnpm%2Fnpm-remote%2F%40aashutoshrathi%2Fword-wrap%2F-%2Fword-wrap-1.2.6.tgz"
        checksum: ada901b9e7c680d190f1d012c84217ce0063d8f5c5a7725bb91ec3c5ed99bb7572680eb2d2938a531ccbaec39a95422fcd8a6b4a13110c7d98dd75402f66a0cd
        languageName: node
        linkType: hard

    "some-package@npm:^1.2.3":
        version: 0.0.0-use.local
        resolution: "some-package@npm:1.2.6::__archiveUrl=https%3A%2F%2Fpackages.atlassian.com%2Fapi%2Fnpm%2Fnpm-remote%2F%40aashutoshrathi%2Fword-wrap%2F-%2Fword-wrap-1.2.6.tgz"
        checksum: ada901b9e7c680d190f1d012c84217ce0063d8f5c5a7725bb91ec3c5ed99bb7572680eb2d2938a531ccbaec39a95422fcd8a6b4a13110c7d98dd75402f66a0cd
        languageName: node
        linkType: hard
    "#;

    let map = extract_yarn_metadata(yarn_lock).unwrap();
    assert_eq!(map.package_count(), 1);
    assert_eq!(map.version_count("@aashutoshrathi/word-wrap"), 1);
    assert!(map.has_version("@aashutoshrathi/word-wrap", "1.2.6"));
    assert!(!map.contains_package("some-package"));
}

#[test]
fn multiple_versions() {
    let yarn_lock = r#"
    __metadata:
        version: 6
        cacheKey: 8

    "some-package@npm:^1.0.0":
        version: 1.0.0
        resolution: "some-package@npm:1.2.6::__archiveUrl=https%3A%2F%2Fpackages.atlassian.com%2Fapi%2Fnpm%2Fnpm-remote%2F%40aashutoshrathi%2Fword-wrap%2F-%2Fword-wrap-1.2.6.tgz"
        checksum: ada901b9e7c680d190f1d012c84217ce0063d8f5c5a7725bb91ec3c5ed99bb7572680eb2d2938a531ccbaec39a95422fcd8a6b4a13110c7d98dd75402f66a0cd
        languageName: node
        linkType: hard

    "some-package@npm:^1.2.3":
        version: 1.2.3
        resolution: "some-package@npm:1.2.6::__archiveUrl=https%3A%2F%2Fpackages.atlassian.com%2Fapi%2Fnpm%2Fnpm-remote%2F%40aashutoshrathi%2Fword-wrap%2F-%2Fword-wrap-1.2.6.tgz"
        checksum: ada901b9e7c680d190f1d012c84217ce0063d8f5c5a7725bb91ec3c5ed99bb7572680eb2d2938a531ccbaec39a95422fcd8a6b4a13110c7d98dd75402f66a0cd
        languageName: node
        linkType: hard
    "#;

    let map = extract_yarn_metadata(yarn_lock).unwrap();
    assert_eq!(map.package_count(), 1);
    assert_eq!(map.version_count("some-package"), 2);
    assert!(map.has_version("some-package", "1.0.0"));
    assert!(map.has_version("some-package", "1.2.3"));
}

#[test]
fn keys_with_multiple_declarations() {
    let yarn_lock = r#"
    __metadata:
        version: 6
        cacheKey: 8

    "@apollo/react-components@npm:^3.1.2, @apollo/react-components@npm:^3.1.3, @apollo/react-components@npm:^3.1.5":
        version: 3.1.5
        resolution: "@apollo/react-components@npm:3.1.5::__archiveUrl=https%3A%2F%2Fpackages.atlassian.com%2Fapi%2Fnpm%2Fnpm-remote%2F%40apollo%2Freact-components%2F-%2Freact-components-3.1.5.tgz"
        checksum: a96911fa191d99398cc565a69789529eca255a8f24c888b1c2f3c1b72c8f2ba41bc818bff70f04993f6788353c0cb72ab35dcf024aaf5f46b07b1bd82b75f4f7
        languageName: node
        linkType: hard
    "#;

    let map = extract_yarn_metadata(yarn_lock).unwrap();
    assert_eq!(map.package_count(), 1);
    assert_eq!(map.version_count("@apollo/react-components"), 1);
    assert!(map.has_version("@apollo/react-components", "3.1.5"));
}

#[test]
fn invalid_lockfile_reports_syntax_error() {
    match extract_yarn_metadata("invalid") {
        Err(ParseError::Syntax(_)) => {}
        other => panic!("expected a syntax error, got {:?}", other),
    }
}

#[test]
fn entry_without_version_reports_missing_version() {
    let yarn_lock = r#"
    "some-package@npm:^1.0.0":
        resolution: "some-package@npm:1.0.0"
        languageName: node
    "#;

    match extract_yarn_metadata(yarn_lock) {
        Err(ParseError::MissingVersion(key)) => {
            assert_eq!(key, "some-package@npm:^1.0.0");
        }
        other => panic!("expected a missing-version error, got {:?}", other),
    }
}

#[test]
fn get_packages_extracts_like_the_extractor() {
    let yarn_lock = r#"
    __metadata:
        version: 6
        cacheKey: 8

    "some-package@npm:^1.0.0":
        version: 1.0.0
        resolution: "some-package@npm:1.0.0"
    "#;

    let map = get_packages(yarn_lock).unwrap();
    assert_eq!(map.package_count(), 1);
    assert!(map.has_version("some-package", "1.0.0"));
}

#[test]
fn get_packages_rejects_key_without_separator() {
    let yarn_lock = r#"
    "not-a-selector":
        version: 1.0.0
    "#;

    match get_packages(yarn_lock) {
        Err(LockfileError::MalformedKey(key)) => {
            assert_eq!(key, "not-a-selector");
        }
        other => panic!("expected a malformed-key error, got {:?}", other),
    }
}

#[test]
fn get_packages_reports_parse_errors() {
    match get_packages("invalid") {
        Err(LockfileError::Parse(ParseError::Syntax(_))) => {}
        other => panic!("expected a syntax error, got {:?}", other),
    }
}

#[test]
fn unknown_entry_fields_are_tolerated() {
    let yarn_lock = r#"
    "some-package@npm:^1.0.0":
        version: 1.0.0
        resolution: "some-package@npm:1.0.0"
        dependencies:
            other-package: ^2.0.0
        bin:
            some-tool: bin/some-tool.js
        languageName: node
        linkType: hard
    "#;

    let map = extract_yarn_metadata(yarn_lock).unwrap();
    assert_eq!(map.package_count(), 1);
    assert!(map.has_version("some-package", "1.0.0"));
}

#[test]
fn non_record_entry_is_a_syntax_error() {
    let yarn_lock = r#"
    "some-package@npm:^1.0.0": 42
    "#;

    match extract_yarn_metadata(yarn_lock) {
        Err(ParseError::Syntax(_)) => {}
        other => panic!("expected a syntax error, got {:?}", other),
    }
}
