use edhost::is_ipv4_token;
use edhost::{
    backup_file_name, banner_text, parse, plan_add, resolve_hosts_path, serialize,
    serialize_incremental, HostEntry, HostForm, HostsError,
};

fn entry(ip: &str, hostname: &str, enabled: bool) -> HostEntry {
    HostEntry { ip: ip.to_string(), hostname: hostname.to_string(), enabled }
}

fn assert_entry(e: &HostEntry, ip: &str, hostname: &str, enabled: bool) {
    assert_eq!(e.ip, ip);
    assert_eq!(e.hostname, hostname);
    assert_eq!(e.enabled, enabled);
}

#[test]
fn parse_line_with_two_hostnames_yields_two_entries() {
    let entries = parse("192.168.1.10 api.local db.local");
    assert_eq!(entries.len(), 2);
    assert_entry(&entries[0], "192.168.1.10", "api.local", true);
    assert_entry(&entries[1], "192.168.1.10", "db.local", true);
}

#[test]
fn parse_commented_mapping_yields_disabled_entry() {
    let entries = parse("# 10.0.0.1 old.local");
    assert_eq!(entries.len(), 1);
    assert_entry(&entries[0], "10.0.0.1", "old.local", false);
}

#[test]
fn parse_plain_comment_yields_nothing() {
    let entries = parse("# just a comment");
    assert_eq!(entries.len(), 0);
}

#[test]
fn parse_commented_mapping_without_space_after_hash() {
    let entries = parse("#10.0.0.1 old.local");
    assert_eq!(entries.len(), 1);
    assert_entry(&entries[0], "10.0.0.1", "old.local", false);
}

#[test]
fn parse_commented_mapping_takes_single_hostname() {
    let entries = parse("# 10.0.0.1 first second");
    assert_eq!(entries.len(), 1);
    assert_entry(&entries[0], "10.0.0.1", "first", false);
}

#[test]
fn parse_skips_malformed_lines_and_continues() {
    let text = "localhost\n1.2.3 host\n1.2.3.4.5 host\nword 5.6.7.8\n9.9.9.9 good";
    let entries = parse(text);
    assert_eq!(entries.len(), 1);
    assert_entry(&entries[0], "9.9.9.9", "good", true);
}

#[test]
fn parse_single_token_line_yields_nothing() {
    assert_eq!(parse("1.2.3.4").len(), 0);
    assert_eq!(parse("1.2.3.4   ").len(), 0);
}

#[test]
fn parse_empty_and_whitespace_yield_nothing() {
    assert_eq!(parse("").len(), 0);
    assert_eq!(parse("   \n\t\n  \n").len(), 0);
}

#[test]
fn parse_stops_hostnames_at_comment() {
    let entries = parse("1.2.3.4 host # a trailing comment");
    assert_eq!(entries.len(), 1);
    assert_entry(&entries[0], "1.2.3.4", "host", true);
}

#[test]
fn parse_cuts_hostname_at_embedded_hash() {
    let entries = parse("1.2.3.4 ab#cd");
    assert_eq!(entries.len(), 1);
    assert_entry(&entries[0], "1.2.3.4", "ab", true);
}

#[test]
fn parse_trims_surrounding_whitespace() {
    let entries = parse("   8.8.8.8\tdns.local  \r\n");
    assert_eq!(entries.len(), 1);
    assert_entry(&entries[0], "8.8.8.8", "dns.local", true);
}

#[test]
fn ipv4_shape_checks() {
    assert!(is_ipv4_token("1.2.3.4"));
    assert!(is_ipv4_token("001.02.0.255"));
    assert!(is_ipv4_token("999.999.999.999"));
    assert!(!is_ipv4_token(""));
    assert!(!is_ipv4_token("1.2.3"));
    assert!(!is_ipv4_token("1.2.3.4.5"));
    assert!(!is_ipv4_token("1..2.3"));
    assert!(!is_ipv4_token("1.2.3.4x"));
    assert!(!is_ipv4_token("a.b.c.d"));
    assert!(!is_ipv4_token(".1.2.3"));
    assert!(!is_ipv4_token("1.2.3."));
}

#[test]
fn serialize_emits_banner_and_one_line_per_entry() {
    let entries = vec![entry("1.2.3.4", "a.local", true), entry("5.6.7.8", "b.local", false)];
    let text = serialize(&entries);
    assert_eq!(
        text,
        "# Hosts file managed by edHost\n# Generated automatically\n\n1.2.3.4 a.local \n# 5.6.7.8 b.local \n"
    );
}

#[test]
fn banner_text_is_the_expected_header() {
    assert_eq!(banner_text(), "# Hosts file managed by edHost\n# Generated automatically\n\n");
}

#[test]
fn serialize_empty_then_parse_yields_empty() {
    let text = serialize(&Vec::new());
    assert_eq!(text, "# Hosts file managed by edHost\n# Generated automatically\n\n");
    assert_eq!(parse(&text).len(), 0);
}

#[test]
fn round_trip_preserves_entries() {
    let entries = vec![
        entry("1.2.3.4", "a.local", true),
        entry("1.2.3.4", "b.local", true),
        entry("10.0.0.1", "old.local", false),
        entry("255.255.255.255", "broadcast", true),
    ];
    let parsed = parse(&serialize(&entries));
    assert_eq!(parsed.len(), entries.len());
    for (p, e) in parsed.iter().zip(entries.iter()) {
        assert_entry(p, &e.ip, &e.hostname, e.enabled);
    }
}

#[test]
fn incremental_groups_by_ip_in_first_seen_order() {
    let entries = vec![
        entry("1.1.1.1", "a", true),
        entry("2.2.2.2", "c", true),
        entry("1.1.1.1", "b", true),
        entry("3.3.3.3", "d", false),
    ];
    let text = serialize_incremental(&entries);
    assert_eq!(text, "1.1.1.1 a b\n2.2.2.2 c\n");
}

#[test]
fn incremental_of_empty_is_empty() {
    assert_eq!(serialize_incremental(&Vec::new()), "");
}

#[test]
fn add_entry_twice_fails_with_duplicate() {
    let form = HostForm { ip: "1.2.3.4".to_string(), hostname: "x".to_string() };
    // first add: empty file
    let current = parse("");
    let appended = plan_add(&current, &form).expect("first add must be accepted");
    assert_eq!(appended, "1.2.3.4 x\n");
    // the file now holds the appended text; a second add must be rejected
    let current = parse(&appended);
    let form2 = HostForm { ip: "1.2.3.4".to_string(), hostname: "x".to_string() };
    match plan_add(&current, &form2) {
        Err(HostsError::DuplicateMapping { ip, hostname }) => {
            assert_eq!(ip, "1.2.3.4");
            assert_eq!(hostname, "x");
        }
        _ => panic!("second add must fail with DuplicateMapping"),
    }
}

#[test]
fn add_into_freshly_initialized_file() {
    let text = serialize(&Vec::new());
    let current = parse(&text);
    assert_eq!(current.len(), 0);
    let form = HostForm { ip: "1.2.3.4".to_string(), hostname: "x".to_string() };
    let appended = match plan_add(&current, &form) {
        Ok(t) => t,
        Err(_) => panic!("add into an empty file must be accepted"),
    };
    let full = format!("{}{}", text, appended);
    let reloaded = parse(&full);
    assert_eq!(reloaded.len(), 1);
    assert_entry(&reloaded[0], "1.2.3.4", "x", true);
}

#[test]
fn add_entry_rejects_duplicate_of_disabled_mapping() {
    let current = parse("# 1.2.3.4 x");
    let form = HostForm { ip: "1.2.3.4".to_string(), hostname: "x".to_string() };
    assert!(matches!(plan_add(&current, &form), Err(HostsError::DuplicateMapping { .. })));
}

#[test]
fn add_entry_distinguishes_exact_strings() {
    let current = parse("1.2.3.4 x");
    let form = HostForm { ip: "1.2.3.4".to_string(), hostname: "X".to_string() };
    assert_eq!(plan_add(&current, &form).unwrap(), "1.2.3.4 X\n");
}

#[test]
fn backup_file_name_is_prefix_plus_digits() {
    assert_eq!(backup_file_name(0), "hosts.bak.0");
    assert_eq!(backup_file_name(7), "hosts.bak.7");
    assert_eq!(backup_file_name(1712345678), "hosts.bak.1712345678");
    assert_eq!(backup_file_name(u64::MAX), "hosts.bak.18446744073709551615");
}

#[test]
fn resolve_hosts_path_by_platform() {
    assert_eq!(resolve_hosts_path(false, None), "/etc/hosts");
    assert_eq!(
        resolve_hosts_path(true, Some("D:\\Win".to_string())),
        "D:\\Win\\System32\\drivers\\etc\\hosts"
    );
    assert_eq!(resolve_hosts_path(true, None), "C:\\Windows\\System32\\drivers\\etc\\hosts");
}

#[test]
fn error_messages_describe_the_failure() {
    let dup = HostsError::DuplicateMapping { ip: "1.2.3.4".to_string(), hostname: "x".to_string() };
    assert_eq!(dup.message(), "mapping already exists: 1.2.3.4 -> x");
    assert_eq!(HostsError::NoDesktopDir.message(), "could not resolve the desktop directory");
    let io = HostsError::Io { detail: "permission denied".to_string() };
    assert_eq!(io.message(), "file operation failed: permission denied");
}

#[test]
fn entry_constructors_carry_fields() {
    let e = HostEntry::new("1.2.3.4".to_string(), "x".to_string(), false);
    assert_entry(&e, "1.2.3.4", "x", false);
    let d = e.dup();
    assert_entry(&d, "1.2.3.4", "x", false);
}

#[test]
fn contains_mapping_finds_enabled_and_disabled() {
    let table = parse("1.2.3.4 a\n# 5.6.7.8 b");
    assert!(edhost::contains_mapping(&table, &"1.2.3.4".to_string(), &"a".to_string()));
    assert!(edhost::contains_mapping(&table, &"5.6.7.8".to_string(), &"b".to_string()));
    assert!(!edhost::contains_mapping(&table, &"1.2.3.4".to_string(), &"b".to_string()));
}
