use pmxcfs::config::{validate_hostname, HostnameError};

#[test]
fn hostname_valid_names() {
    assert!(validate_hostname("node1").is_ok());
    assert!(validate_hostname("pve-01.example.com").is_ok());
    assert!(validate_hostname(&"a".repeat(63)).is_ok());
}

#[test]
fn hostname_empty() {
    assert!(matches!(validate_hostname(""), Err(HostnameError::Empty)));
}

#[test]
fn hostname_too_long() {
    let name = ["a".repeat(63), "b".repeat(63), "c".repeat(63), "d".repeat(63)].join(".");
    assert_eq!(name.len(), 255);
    assert!(matches!(validate_hostname(&name), Err(HostnameError::TooLong { len: 255 })));
}

#[test]
fn hostname_empty_labels() {
    assert!(matches!(validate_hostname("a..b"), Err(HostnameError::EmptyLabel)));
    assert!(matches!(validate_hostname("node."), Err(HostnameError::EmptyLabel)));
    assert!(matches!(validate_hostname(".node"), Err(HostnameError::EmptyLabel)));
}

#[test]
fn hostname_label_too_long() {
    let name = format!("ok.{}", "x".repeat(64));
    match validate_hostname(&name) {
        Err(HostnameError::LabelTooLong { label, len }) => {
            assert_eq!(len, 64);
            assert_eq!(label, "x".repeat(64).into_bytes());
        }
        other => panic!("unexpected {:?}", other),
    }
}

#[test]
fn hostname_hyphen_edges() {
    match validate_hostname("ok.-bad") {
        Err(HostnameError::HyphenEdge { label }) => assert_eq!(label, b"-bad".to_vec()),
        other => panic!("unexpected {:?}", other),
    }
    assert!(matches!(validate_hostname("bad-"), Err(HostnameError::HyphenEdge { .. })));
}

#[test]
fn hostname_invalid_characters() {
    match validate_hostname("my_node.lan") {
        Err(HostnameError::InvalidChars { label }) => assert_eq!(label, b"my_node".to_vec()),
        other => panic!("unexpected {:?}", other),
    }
    assert!(matches!(validate_hostname("nöde"), Err(HostnameError::InvalidChars { .. })));
}

#[test]
fn hostname_first_fault_wins() {
    assert!(matches!(validate_hostname("a_b..c"), Err(HostnameError::InvalidChars { .. })));
}
