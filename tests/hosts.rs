use hostsfile::{parse_hosts_buffer, parse_line, HostEntry, HostFile, ParseError};

fn names(e: &HostEntry) -> Vec<&str> {
    e.hostnames().iter().map(|h| h.as_str()).collect()
}

fn entry(ip: &str, hosts: &[&str]) -> HostEntry {
    HostEntry::new(ip.to_string(), hosts.iter().map(|h| h.to_string()).collect())
}

fn same(a: &HostFile, b: &HostFile) -> bool {
    a.entries.len() == b.entries.len()
        && a.entries.iter().zip(b.entries.iter()).all(|(x, y)| x.ip == y.ip && x.hostname == y.hostname)
}

#[test]
fn simple_ipv4() {
    let f = parse_hosts_buffer(b"127.0.0.1 localhost\n").unwrap();
    assert_eq!(f.entries.len(), 1);
    assert_eq!(f.entries[0].ip(), "127.0.0.1");
    assert_eq!(names(&f.entries[0]), vec!["localhost"]);
    assert_eq!(f.write_to_string(), "127.0.0.1 localhost\n");
}

#[test]
fn multiple_hostnames() {
    let f = parse_hosts_buffer(b"10.0.0.1 host.example.com host\n").unwrap();
    assert_eq!(f.entries.len(), 1);
    assert_eq!(f.entries[0].ip(), "10.0.0.1");
    assert_eq!(names(&f.entries[0]), vec!["host.example.com", "host"]);
}

#[test]
fn ipv6_record() {
    let f = parse_hosts_buffer(b"::1 ip6-localhost ip6-loopback\n").unwrap();
    assert_eq!(f.entries.len(), 1);
    assert_eq!(f.entries[0].ip(), "::1");
    assert_eq!(names(&f.entries[0]), vec!["ip6-localhost", "ip6-loopback"]);
}

#[test]
fn comments_and_blanks_skipped() {
    let f = parse_hosts_buffer(b"# header\n\n   # indented comment\n192.168.1.2 gateway\n").unwrap();
    assert_eq!(f.entries.len(), 1);
    assert_eq!(f.entries[0].ip(), "192.168.1.2");
    assert_eq!(names(&f.entries[0]), vec!["gateway"]);
}

#[test]
fn trailing_inline_garbage_dropped() {
    let f = parse_hosts_buffer(b"1.2.3.4 alpha beta # a note\n").unwrap();
    assert_eq!(f.entries.len(), 1);
    assert_eq!(f.entries[0].ip(), "1.2.3.4");
    assert_eq!(names(&f.entries[0]), vec!["alpha", "beta"]);
}

#[test]
fn malformed_ip_rejected() {
    assert_eq!(parse_hosts_buffer(b"999.1.1.1 x\n").unwrap_err(), ParseError::MalformedIp);
    assert_eq!(parse_hosts_buffer(b"::g host\n").unwrap_err(), ParseError::MalformedIp);
    assert_eq!(parse_hosts_buffer(b"localhost 127.0.0.1\n").unwrap_err(), ParseError::MalformedIp);
}

#[test]
fn ip_without_hostnames_rejected() {
    assert_eq!(parse_hosts_buffer(b"127.0.0.1\n").unwrap_err(), ParseError::MalformedHostname);
    assert_eq!(
        parse_hosts_buffer(b"127.0.0.1 #comment host\n").unwrap_err(),
        ParseError::MalformedHostname
    );
    assert_eq!(parse_hosts_buffer(b"127.0.0.1 1host\n").unwrap_err(), ParseError::MalformedHostname);
}

#[test]
fn round_trip_document() {
    let mut doc = HostFile::new();
    doc.push(entry("127.0.0.1", &["localhost"]));
    doc.push(entry("::1", &["ip6-localhost", "ip6-loopback"]));
    let text = doc.write_to_string();
    assert_eq!(text, "127.0.0.1 localhost\n::1 ip6-localhost ip6-loopback\n");
    let back = parse_hosts_buffer(text.as_bytes()).unwrap();
    assert!(same(&doc, &back));
}

#[test]
fn empty_document_writes_nothing() {
    assert_eq!(HostFile::new().write_to_string(), "");
    let f = parse_hosts_buffer(b"").unwrap();
    assert_eq!(f.entries.len(), 0);
    let f = parse_hosts_buffer(b"\n\n# only comments\n   \t\n").unwrap();
    assert_eq!(f.entries.len(), 0);
}

#[test]
fn single_letter_hostname_admitted() {
    let f = parse_hosts_buffer(b"10.1.1.1 a b2 c\n").unwrap();
    assert_eq!(names(&f.entries[0]), vec!["a", "b2", "c"]);
}

#[test]
fn hostname_shape_stops_the_list() {
    let f = parse_hosts_buffer(b"10.1.1.1 good bad- later\n").unwrap();
    assert_eq!(names(&f.entries[0]), vec!["good"]);
    let f = parse_hosts_buffer(b"10.1.1.1 good x.y. later\n").unwrap();
    assert_eq!(names(&f.entries[0]), vec!["good"]);
    let f = parse_hosts_buffer(b"10.1.1.1 good h_st later\n").unwrap();
    assert_eq!(names(&f.entries[0]), vec!["good"]);
}

#[test]
fn whitespace_runs_and_crlf() {
    let f = parse_hosts_buffer(b"  \t10.0.0.2\t\thost-a   host-b \r\n10.0.0.3 c\x0bd").unwrap();
    assert_eq!(f.entries.len(), 2);
    assert_eq!(f.entries[0].ip(), "10.0.0.2");
    assert_eq!(names(&f.entries[0]), vec!["host-a", "host-b"]);
    assert_eq!(f.entries[1].ip(), "10.0.0.3");
    assert_eq!(names(&f.entries[1]), vec!["c", "d"]);
}

#[test]
fn bad_encoding_rejected() {
    assert_eq!(parse_hosts_buffer(b"# caf\xe9\n").unwrap_err(), ParseError::BadEncoding);
    assert_eq!(parse_hosts_buffer(b"127.0.0.1 a\n1.1.1.1 \xff\xfe\n").unwrap_err(), ParseError::BadEncoding);
}

#[test]
fn first_error_wins() {
    assert_eq!(
        parse_hosts_buffer(b"127.0.0.1\n999.0.0.1 x\n").unwrap_err(),
        ParseError::MalformedHostname
    );
    assert_eq!(parse_hosts_buffer(b"300.0.0.1 x\n\xff\n").unwrap_err(), ParseError::MalformedIp);
}

#[test]
fn order_is_kept() {
    let f = parse_hosts_buffer(b"10.0.0.3 c3 c1\n10.0.0.1 a\n10.0.0.2 b\n").unwrap();
    let ips: Vec<&str> = f.entries.iter().map(|e| e.ip()).collect();
    assert_eq!(ips, vec!["10.0.0.3", "10.0.0.1", "10.0.0.2"]);
    assert_eq!(names(&f.entries[0]), vec!["c3", "c1"]);
}

#[test]
fn reparse_is_idempotent() {
    let input = b"# hosts\n127.0.0.1   localhost loopback # me\n\n::1 ip6-localhost\n";
    let first = parse_hosts_buffer(input).unwrap();
    let text = first.write_to_string();
    assert_eq!(text, "127.0.0.1 localhost loopback\n::1 ip6-localhost\n");
    let second = parse_hosts_buffer(text.as_bytes()).unwrap();
    assert!(same(&first, &second));
}

#[test]
fn inserted_comment_lines_change_nothing() {
    let plain = parse_hosts_buffer(b"10.0.0.1 a\n10.0.0.2 b\n").unwrap();
    let noisy = parse_hosts_buffer(b"# top\n10.0.0.1 a\n\n  # mid\n\t\n10.0.0.2 b\n#end").unwrap();
    assert!(same(&plain, &noisy));
}

#[test]
fn serializer_is_deterministic() {
    let mut doc = HostFile::new();
    doc.push(entry("192.168.0.1", &["router", "gw"]));
    assert_eq!(doc.write_to_string(), doc.write_to_string());
    assert_eq!(doc.write_to_string(), "192.168.0.1 router gw\n");
}

#[test]
fn single_line_parsing() {
    assert!(parse_line(b"   # comment").unwrap().is_none());
    assert!(parse_line(b"").unwrap().is_none());
    let e = parse_line(b"10.9.8.7 name").unwrap().unwrap();
    assert_eq!(e.ip(), "10.9.8.7");
    assert_eq!(names(&e), vec!["name"]);
    assert_eq!(parse_line(b"\xc3\x28").unwrap_err(), ParseError::BadEncoding);
}

#[test]
fn record_from_line() {
    let e = HostEntry::from_line(b"fe80::1 link-local x # y").unwrap();
    assert_eq!(e.ip(), "fe80::1");
    assert_eq!(names(&e), vec!["link-local", "x"]);
    assert_eq!(HostEntry::from_line(b"# 1.2.3.4 a").unwrap_err(), ParseError::MalformedIp);
    assert_eq!(HostEntry::from_line(b"").unwrap_err(), ParseError::MalformedIp);
}

#[test]
fn error_tags() {
    assert_eq!(ParseError::MalformedIp.tag(), "malformed ip");
    assert_eq!(ParseError::MalformedHostname.tag(), "malformed hostname");
    assert_eq!(ParseError::BadEncoding.tag(), "bad encoding");
}

#[test]
fn record_from_str() {
    let e: HostEntry = "192.0.2.1 web www # site".parse().unwrap();
    assert_eq!(e.ip(), "192.0.2.1");
    assert_eq!(names(&e), vec!["web", "www"]);
    assert_eq!("192.0.2.1".parse::<HostEntry>().unwrap_err(), ParseError::MalformedHostname);
    assert_eq!("not-an-ip host".parse::<HostEntry>().unwrap_err(), ParseError::MalformedIp);
}

#[test]
fn default_values() {
    let e = HostEntry::default();
    assert_eq!(e.ip(), "");
    assert!(e.hostnames().is_empty());
    assert_eq!(HostFile::default().entries.len(), 0);
}

#[test]
fn push_keeps_entries() {
    let mut doc = HostFile::new();
    doc.push(entry("10.0.0.1", &["one"]));
    doc.push(entry("10.0.0.2", &["two", "deux"]));
    assert_eq!(doc.entries.len(), 2);
    assert_eq!(doc.entries[1].ip(), "10.0.0.2");
    assert_eq!(names(&doc.entries[1]), vec!["two", "deux"]);
}

fn toks(ts: &[&str]) -> Vec<Vec<u8>> {
    ts.iter().map(|t| t.as_bytes().to_vec()).collect()
}

#[test]
fn record_from_checked_tokens() {
    let e = HostEntry::from_checked_tokens(&toks(&["1.2.3.4", "a", "b-c", "d.", "e"]), true).unwrap();
    assert_eq!(e.ip(), "1.2.3.4");
    assert_eq!(names(&e), vec!["a", "b-c"]);
    assert_eq!(
        HostEntry::from_checked_tokens(&toks(&["1.2.3.4", "a"]), false).unwrap_err(),
        ParseError::MalformedIp
    );
    assert_eq!(
        HostEntry::from_checked_tokens(&toks(&["1.2.3.4", "#", "a"]), true).unwrap_err(),
        ParseError::MalformedHostname
    );
    assert_eq!(HostEntry::from_checked_tokens(&toks(&[]), true).unwrap_err(), ParseError::MalformedIp);
    let bad = vec![vec![0xffu8], b"host".to_vec()];
    assert_eq!(HostEntry::from_checked_tokens(&bad, true).unwrap_err(), ParseError::MalformedIp);
}

#[test]
fn from_str_line_cases() {
    let e: HostEntry = "1.2.3.4 a b-c d. e".parse().unwrap();
    assert_eq!(names(&e), vec!["a", "b-c"]);
    let e: HostEntry = "10.0.0.1 host.example.com host".parse().unwrap();
    assert_eq!(names(&e), vec!["host.example.com", "host"]);
    let e: HostEntry = "::1 ip6-localhost ip6-loopback".parse().unwrap();
    assert_eq!(e.ip(), "::1");
    let e: HostEntry = "1.2.3.4 alpha beta # a note".parse().unwrap();
    assert_eq!(names(&e), vec!["alpha", "beta"]);
    assert_eq!("999.1.1.1 x".parse::<HostEntry>().unwrap_err(), ParseError::MalformedIp);
    assert_eq!("127.0.0.1".parse::<HostEntry>().unwrap_err(), ParseError::MalformedHostname);
    assert_eq!("127.0.0.1 #x".parse::<HostEntry>().unwrap_err(), ParseError::MalformedHostname);
    assert_eq!("".parse::<HostEntry>().unwrap_err(), ParseError::MalformedIp);
}
