use netmon::ss::{find_bytes, parse_endpoint, parse_ss, parse_users};

#[test]
fn parse_endpoint_ipv4() {
    assert_eq!(parse_endpoint("127.0.0.1:10808"), Some(("127.0.0.1".to_string(), 10808)));
}

#[test]
fn parse_endpoint_ipv6() {
    assert_eq!(parse_endpoint("[::1]:123"), Some(("::1".to_string(), 123)));
}

#[test]
fn parse_endpoint_wildcard_is_none() {
    assert_eq!(parse_endpoint("*:53"), None);
}

#[test]
fn endpoints_without_a_port_are_none() {
    assert_eq!(parse_endpoint(""), None);
    assert_eq!(parse_endpoint("10.0.0.1"), None);
    assert_eq!(parse_endpoint("10.0.0.1:*"), None);
    assert_eq!(parse_endpoint("10.0.0.1:65536"), None);
    assert_eq!(parse_endpoint("[::1]"), None);
    assert_eq!(parse_endpoint("[fe80::1]%eth0]:80"), Some(("fe80::1]%eth0".to_string(), 80)));
}

#[test]
fn parse_users_finds_first_owner() {
    let (comm, pid) = parse_users(r#"users:(("node-MainThread",pid=26951,fd=24))"#);
    assert_eq!(comm, "node-MainThread");
    assert_eq!(pid, Some(26951));
}

#[test]
fn parse_users_handles_no_owner() {
    let (comm, pid) = parse_users("users:(())");
    assert_eq!(comm, "-");
    assert_eq!(pid, None);
}

#[test]
fn owners_in_unusual_shapes() {
    assert_eq!(parse_users(""), ("-".to_string(), None));
    assert_eq!(parse_users("users:("), ("-".to_string(), None));
    assert_eq!(parse_users(r#"users:(("a",fd=3))"#), ("a".to_string(), None));
    assert_eq!(parse_users(r#"users:(("a",pid=99999999999,fd=3))"#), ("a".to_string(), None));
    assert_eq!(
        parse_users(r#"timer:x users:(("a b",pid=1,fd=3),("c",pid=2,fd=4))"#),
        ("a b".to_string(), Some(1)),
    );
}

#[test]
fn find_bytes_extracts_values() {
    let s = "cubic wscale:8 rto:204 bytes_acked:7984 bytes_sent:7983 bytes_received:6313 segs_out:30";
    assert_eq!(find_bytes(s, "bytes_received:"), Some(6313));
    assert_eq!(find_bytes(s, "bytes_sent:"), Some(7983));
    assert_eq!(find_bytes(s, "bytes_acked:"), Some(7984));
}

#[test]
fn find_bytes_needs_a_number() {
    assert_eq!(find_bytes("bytes_sent:x", "bytes_sent:"), None);
    assert_eq!(find_bytes("bytes_sent:", "bytes_sent:"), None);
    assert_eq!(find_bytes("segs_out:3", "bytes_sent:"), None);
    assert_eq!(find_bytes("bytes_sent:18446744073709551616", "bytes_sent:"), None);
}

const SS: &str = "Netid State  Recv-Q Send-Q Local Address:Port Peer Address:Port Process
udp   ESTAB  0      0      127.0.0.53:53   8.8.8.8:53  users:((\"resolver\",pid=1031,fd=13))
tcp   LISTEN 0      128    0.0.0.0:22      0.0.0.0:*   users:((\"sshd\",pid=1,fd=3))
\t cubic bytes_sent:1 bytes_received:2
tcp   ESTAB  0      0      10.0.0.2:22     10.0.0.9:55123 users:((\"sshd\",pid=882,fd=4))
\t cubic wscale:8 bytes_acked:10 bytes_sent:4000 bytes_received:12000

tcp   TIME-WAIT 0   0      10.0.0.2:80     10.0.0.9:1
tcp   ESTAB  0      0      10.0.0.2:5      10.0.0.9:6
  cubic bytes_sent:5 bytes_received:6
tcp   ESTAB  0      0      10.0.0.2:7      10.0.0.9:8
    cubic bytes_sent:7
";

#[test]
fn only_established_connections_and_udp_are_listed() {
    let s = parse_ss(SS);
    assert_eq!(s.len(), 4);
    assert_eq!(s[0].proto, "udp");
    assert_eq!((s[0].rx_bytes, s[0].tx_bytes), (None, None));
    assert_eq!(s[1].proto, "tcp");
    assert_eq!(s[1].comm, "sshd");
    assert_eq!(s[1].pid, Some(882));
    assert_eq!(s[1].local, "10.0.0.2:22");
    assert_eq!(s[1].remote, "10.0.0.9:55123");
    assert_eq!((s[1].rx_bytes, s[1].tx_bytes), (Some(12000), Some(4000)));
    // Details are indented by a tab or four spaces.
    assert_eq!(s[2].comm, "-");
    assert_eq!((s[2].rx_bytes, s[2].tx_bytes), (None, None));
    assert_eq!((s[3].rx_bytes, s[3].tx_bytes), (None, Some(7)));
    assert!(parse_ss("").is_empty());
}

#[test]
fn nobody_is_named_by_what_follows() {
    assert_eq!(
        parse_users("users:(()) timer:(keepalive,10sec,0)"),
        ("-".to_string(), None),
    );
    assert_eq!(parse_users(r#"users:((),("b",pid=7,fd=1))"#), ("-".to_string(), None));
    assert_eq!(parse_users(r#"users:(("open"#), ("-".to_string(), None));
    assert_eq!(parse_users("users:() timer:(on,pid=4)"), ("-".to_string(), None));
}

#[test]
fn names_may_hold_commas_and_brackets() {
    assert_eq!(parse_users(r#"users:(("a,b",pid=5,fd=3))"#), ("a,b".to_string(), Some(5)));
    assert_eq!(
        parse_users(r#"users:(("(sd-pam)",pid=812,fd=3)) timer:(on,pid=1)"#),
        ("(sd-pam)".to_string(), Some(812)),
    );
    assert_eq!(parse_users(r#"users:(("",pid=9,fd=3))"#), (String::new(), Some(9)));
    assert_eq!(parse_users(r#"users:((",a",pid=9,fd=3))"#), (",a".to_string(), Some(9)));
    // Names without quotation marks end at the first comma.
    assert_eq!(parse_users("users:((abc,pid=5,fd=3))"), ("abc".to_string(), Some(5)));
    assert_eq!(parse_users("users:( (abc,pid=5,fd=3))"), ("abc".to_string(), Some(5)));
    assert_eq!(parse_users(r#"users:(("abc,pid=5,fd=3))"#), ("abc".to_string(), Some(5)));
    assert_eq!(parse_users("users:((abc))"), ("-".to_string(), None));
    // The number is that of the first owner.
    assert_eq!(
        parse_users(r#"users:(("a",fd=3),("b",pid=7,fd=1))"#),
        ("a".to_string(), None),
    );
}

#[test]
fn endpoints_read_back() {
    for ip in ["127.0.0.1", "", "fe80::1%eth0", "2001:db8::7"] {
        for port in [0u16, 1, 53, 8080, 65535] {
            let expected = Some((ip.to_string(), port));
            assert_eq!(parse_endpoint(&format!("{}:{}", ip, port)), expected);
            assert_eq!(parse_endpoint(&format!("[{}]:{}", ip, port)), expected);
        }
    }
    assert_eq!(parse_endpoint("[::1]:8:x"), None);
    assert_eq!(parse_endpoint("*"), None);
}
