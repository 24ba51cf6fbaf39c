use breachcheck::{hash_password, BreachResult};

#[test]
fn known_breached_password_scenario() {
    let digest = hash_password("password");
    assert_eq!(digest, "5BAA61E4C9B93F3F0682250B6CF8331B7EE68FD8");
    let body = "0018A45C4D1DEF81644B54AB7F969B88D65:10\n\
                1E4C9B93F3F0682250B6CF8331B7EE68FD8:3730471\n\
                011053FD0102E94D6AE2F8B83D76FAF94F6:1";
    let result = BreachResult::new(body, &digest);
    assert_eq!(result.sites, 1);
    assert_eq!(result.occurrences, 3730471);
}

#[test]
fn unique_password_matches_nothing() {
    let digest = hash_password("a-truly-unique-string-xyz123");
    let body = "0018A45C4D1DEF81644B54AB7F969B88D65:10\n\
                011053FD0102E94D6AE2F8B83D76FAF94F6:1";
    let result = BreachResult::new(body, &digest);
    assert_eq!(result.sites, 0);
    assert_eq!(result.occurrences, 0);
}

#[test]
fn duplicate_suffixes_are_summed_not_deduplicated() {
    let digest = hash_password("password");
    let suffix = &digest[5..];
    let body = format!("{}:2\nAAAA:9\n{}:3", suffix, suffix);
    let result = BreachResult::new(&body, &digest);
    assert_eq!(result.sites, 2);
    assert_eq!(result.occurrences, 5);
}

#[test]
fn match_is_order_independent() {
    let digest = hash_password("password");
    let suffix = &digest[5..];
    let one = format!("{}:2\nAAAA:9\n{}:3", suffix, suffix);
    let other = format!("{}:3\n{}:2\nAAAA:9", suffix, suffix);
    let first = BreachResult::new(&one, &digest);
    let second = BreachResult::new(&other, &digest);
    assert_eq!(first.sites, second.sites);
    assert_eq!(first.occurrences, second.occurrences);
}

#[test]
fn match_is_idempotent() {
    let digest = hash_password("password");
    let body = format!("{}:7", &digest[5..]);
    let first = BreachResult::new(&body, &digest);
    let second = BreachResult::new(&body, &digest);
    assert_eq!(first.sites, second.sites);
    assert_eq!(first.occurrences, second.occurrences);
}

#[test]
fn occurrence_total_saturates() {
    let digest = hash_password("password");
    let suffix = &digest[5..];
    let body = format!(
        "{}:18446744073709551615\n{}:18446744073709551615",
        suffix, suffix
    );
    let result = BreachResult::new(&body, &digest);
    assert_eq!(result.sites, 2);
    assert_eq!(result.occurrences, u64::MAX);
}

#[test]
fn malformed_lines_do_not_spoil_the_lookup() {
    let digest = hash_password("password");
    let body = format!("garbage\n{}:4\nAAAA:notanumber", &digest[5..]);
    let result = BreachResult::new(&body, &digest);
    assert_eq!(result.sites, 1);
    assert_eq!(result.occurrences, 4);
}
