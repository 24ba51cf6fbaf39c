use breachcheck::digest::hash_prefix;
use breachcheck::hash_password;

#[test]
fn digest_of_known_password() {
    assert_eq!(
        hash_password("password"),
        "5BAA61E4C9B93F3F0682250B6CF8331B7EE68FD8"
    );
}

#[test]
fn digest_is_forty_uppercase_hex() {
    let digest = hash_password("a-truly-unique-string-xyz123");
    assert_eq!(digest.len(), 40);
    for c in digest.chars() {
        assert!(c.is_ascii_digit() || ('A'..='F').contains(&c));
    }
}

#[test]
fn digest_of_empty_is_empty() {
    assert_eq!(hash_password(""), "");
}

#[test]
fn digest_is_deterministic() {
    assert_eq!(hash_password("hunter2"), hash_password("hunter2"));
    assert_ne!(hash_password("hunter2"), hash_password("hunter3"));
}

#[test]
fn prefix_is_first_five_characters() {
    let digest = hash_password("password");
    assert_eq!(hash_prefix(&digest), "5BAA6");
}
