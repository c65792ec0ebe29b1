use mojang::server_block::is_ipv4;
use mojang::BlockedServers;
use sha1::Digest;

/// Lowercase-hex SHA-1 of `s`, rendered independently of the library.
fn sha1_hex(s: &str) -> String {
    let digest = sha1::Sha1::digest(s.as_bytes());
    let mut out = String::new();
    for b in digest.iter() {
        out.push_str(&format!("{:02x}", b));
    }
    out
}

fn servers(patterns: &[&str]) -> BlockedServers {
    BlockedServers::new(patterns.iter().map(|p| sha1_hex(p)).collect())
}

#[test]
fn is_ipv4_dotted_quad() {
    assert!(is_ipv4(&["192", "0", "2", "235"]));
}

#[test]
fn is_ipv4_hostname() {
    assert!(!is_ipv4(&["mc", "example", "com"]));
}

#[test]
fn is_ipv4_octet_too_large() {
    assert!(!is_ipv4(&["999", "0", "0", "1"]));
}

#[test]
fn is_ipv4_wrong_segment_count() {
    assert!(!is_ipv4(&["1", "2", "3"]));
}

#[test]
fn is_ipv4_like_u8_parse() {
    // `str::parse::<u8>` accepts a leading `+` and leading zeros.
    assert!(is_ipv4(&["+192", "007", "0", "1"]));
    assert!(!is_ipv4(&["256", "0", "0", "1"]));
    assert!(!is_ipv4(&["192", "0", "2", ""]));
    assert!(!is_ipv4(&["+", "0", "0", "1"]));
    assert!(!is_ipv4(&["1 ", "2", "3", "4"]));
}

#[test]
fn hostname_wildcard_match() {
    // sha1("*.example.com")
    let blocked = BlockedServers::new(vec![String::from(
        "8c7122d652cb7be22d1986f1f30b07fd5108d9c0",
    )]);
    assert_eq!(
        blocked.find_blocked_pattern("mc.example.com"),
        Some(String::from("*.example.com"))
    );
    assert_eq!(blocked.find_blocked_pattern("other.com"), None);
}

#[test]
fn ipv4_wildcard_match() {
    // sha1("192.0.*")
    let blocked = BlockedServers::new(vec![String::from(
        "8c15fb642b3e8f58480df51798382f1016e748eb",
    )]);
    assert_eq!(
        blocked.find_blocked_pattern("192.0.2.235"),
        Some(String::from("192.0.*"))
    );
    assert_eq!(blocked.find_blocked_pattern("193.0.2.235"), None);
}

#[test]
fn exact_entry_match() {
    // sha1("127.0.0.1")
    let blocked = BlockedServers::new(vec![String::from(
        "4b84b15bff6ee5796152495a230e45e3d7e947d9",
    )]);
    assert_eq!(
        blocked.find_blocked_pattern("127.0.0.1"),
        Some(String::from("127.0.0.1"))
    );
    assert_eq!(blocked.find_blocked_pattern("127.0.0.2"), None);
}

#[test]
fn exact_match_beats_hostname_wildcard() {
    let blocked = servers(&["mc.example.com", "*.example.com"]);
    assert_eq!(
        blocked.find_blocked_pattern("mc.example.com"),
        Some(String::from("mc.example.com"))
    );
}

#[test]
fn exact_match_beats_ipv4_wildcard() {
    let blocked = servers(&["192.0.2.235", "192.0.*"]);
    assert_eq!(
        blocked.find_blocked_pattern("192.0.2.235"),
        Some(String::from("192.0.2.235"))
    );
}

#[test]
fn ipv4_most_specific_wildcard_wins() {
    let blocked = servers(&["192.0.2.*", "192.0.*"]);
    assert_eq!(
        blocked.find_blocked_pattern("192.0.2.235"),
        Some(String::from("192.0.2.*"))
    );
}

#[test]
fn hostname_most_specific_wildcard_wins() {
    let blocked = servers(&["*.mc.example.com", "*.example.com"]);
    assert_eq!(
        blocked.find_blocked_pattern("play.mc.example.com"),
        Some(String::from("*.mc.example.com"))
    );
}

#[test]
fn least_specific_wildcards_still_reached() {
    let blocked = servers(&["192.*"]);
    assert_eq!(
        blocked.find_blocked_pattern("192.0.2.235"),
        Some(String::from("192.*"))
    );
    let blocked = servers(&["*.com"]);
    assert_eq!(
        blocked.find_blocked_pattern("play.mc.example.com"),
        Some(String::from("*.com"))
    );
}

#[test]
fn is_blocked_agrees_with_find() {
    let blocked = servers(&["*.example.com", "192.0.*", "127.0.0.1"]);
    for address in [
        "mc.example.com",
        "other.com",
        "192.0.2.235",
        "193.0.2.235",
        "127.0.0.1",
        "127.0.0.2",
        "",
        "localhost",
    ] {
        assert_eq!(
            blocked.is_blocked(address),
            blocked.find_blocked_pattern(address).is_some()
        );
    }
}

#[test]
fn empty_set_blocks_nothing() {
    let blocked = BlockedServers::new(Vec::new());
    for address in ["mc.example.com", "192.0.2.235", "", "localhost", "..."] {
        assert!(!blocked.is_blocked(address));
        assert_eq!(blocked.find_blocked_pattern(address), None);
    }
}

#[test]
fn malformed_addresses_never_match() {
    let blocked = servers(&["*.example.com", "192.0.*", "127.0.0.1"]);
    for address in ["", ".", "..", "localhost", "192.0.2.", ".other.com"] {
        assert_eq!(blocked.find_blocked_pattern(address), None);
    }
}

#[test]
fn single_label_address_has_no_wildcards() {
    let blocked = servers(&["*.localhost", "localhost.*", "*."]);
    assert_eq!(blocked.find_blocked_pattern("localhost"), None);
}

#[test]
fn trailing_dot_keeps_empty_segment() {
    // ["a", "com", ""] is not IPv4-shaped, so suffix wildcards apply.
    let blocked = servers(&["*.com."]);
    assert_eq!(
        blocked.find_blocked_pattern("a.com."),
        Some(String::from("*.com."))
    );
}

#[test]
fn uppercase_list_entry_never_matches() {
    let blocked = BlockedServers::new(vec![sha1_hex("127.0.0.1").to_uppercase()]);
    assert_eq!(blocked.find_blocked_pattern("127.0.0.1"), None);
}

#[test]
fn hashes_stored_unchanged() {
    let entries = vec![String::from("aa"), String::from("bb")];
    let blocked = BlockedServers::new(entries.clone());
    assert_eq!(blocked.hashes, entries);
}

#[test]
fn computed_hash_matches_independent_rendering() {
    // Exercises the digest wrapper and the hex rendering, zero padding
    // included, against an independently rendered hash for each pattern.
    for pattern in ["a", "b", "mc.example.com", "0.0.0.0", "x.y", "*"] {
        let blocked = BlockedServers::new(vec![sha1_hex(pattern)]);
        assert_eq!(
            blocked.find_blocked_pattern(pattern),
            Some(String::from(pattern))
        );
    }
}
