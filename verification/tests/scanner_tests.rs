use portcrush::scanner::{parse_listing, parse_name, scan_output, PortEntry};

const LISTING: &str = "COMMAND     PID USER   FD   TYPE             DEVICE SIZE/OFF NODE NAME
node      12345 alice   23u  IPv4 0x1234567890abcdef      0t0  TCP 127.0.0.1:3000 (LISTEN)
node      12345 alice   24u  IPv6 0x1234567890abcdee      0t0  TCP [::1]:3000 (LISTEN)
postgres    678 alice    7u  IPv4 0x00000000000000ab      0t0  TCP *:5432 (LISTEN)
";

fn summary(v: &[PortEntry]) -> Vec<(String, u32, u16, String, String)> {
    v.iter()
        .map(|e| (e.process.clone(), e.pid, e.port, e.proto.clone(), e.address.clone()))
        .collect()
}

#[test]
fn parse_name_plain_address() {
    assert_eq!(parse_name("127.0.0.1:8080"), ("127.0.0.1".to_string(), 8080));
}

#[test]
fn parse_name_wildcard_address() {
    assert_eq!(parse_name("*:5432"), ("*".to_string(), 5432));
}

#[test]
fn parse_name_bracketed_ipv6() {
    assert_eq!(parse_name("[::1]:3000"), ("::1".to_string(), 3000));
    assert_eq!(parse_name("[fe80::1%lo0]:631"), ("fe80::1%lo0".to_string(), 631));
}

#[test]
fn parse_name_splits_at_last_colon() {
    assert_eq!(parse_name("a:b:22"), ("a:b".to_string(), 22));
}

#[test]
fn parse_name_bad_port_reads_zero() {
    assert_eq!(parse_name("host:http"), ("host".to_string(), 0));
    assert_eq!(parse_name("host:70000"), ("host".to_string(), 0));
    assert_eq!(parse_name("host:"), ("host".to_string(), 0));
}

#[test]
fn parse_name_plus_sign_is_accepted() {
    assert_eq!(parse_name("host:+80"), ("host".to_string(), 80));
    assert_eq!(parse_name("host:+"), ("host".to_string(), 0));
    assert_eq!(parse_name("host:-80"), ("host".to_string(), 0));
}

#[test]
fn parse_name_without_colon() {
    assert_eq!(parse_name("localhost"), ("localhost".to_string(), 0));
}

#[test]
fn parse_listing_reads_rows_and_drops_duplicates() {
    let v = parse_listing(LISTING);
    assert_eq!(
        summary(&v),
        vec![
            ("node".to_string(), 12345, 3000, "TCP".to_string(), "127.0.0.1".to_string()),
            ("postgres".to_string(), 678, 5432, "TCP".to_string(), "*".to_string()),
        ]
    );
}

#[test]
fn parse_listing_skips_short_rows_bad_pids_and_port_zero() {
    let text = "HEADER\n\
                short row here\n\
                a notanumber u f t d s TCP 1.2.3.4:80\n\
                b 10 u f t d s TCP 1.2.3.4:0\n\
                c 11 u f t d s TCP noport\n\
                d 12 u f t d s TCP 1.2.3.4:81\n";
    let v = parse_listing(text);
    assert_eq!(
        summary(&v),
        vec![("d".to_string(), 12, 81, "TCP".to_string(), "1.2.3.4".to_string())]
    );
}

#[test]
fn parse_listing_empty_and_header_only() {
    assert!(parse_listing("").is_empty());
    assert!(parse_listing("COMMAND PID USER FD TYPE DEVICE SIZE NODE NAME").is_empty());
}

#[test]
fn parse_listing_crlf_and_tabs() {
    let text = "H\r\nx\t7 u f t d s TCP\t[::]:22 (LISTEN)\r\ny 8 u f t d s TCP 0.0.0.0:23";
    let v = parse_listing(text);
    assert_eq!(
        summary(&v),
        vec![
            ("x".to_string(), 7, 22, "TCP".to_string(), "::".to_string()),
            ("y".to_string(), 8, 23, "TCP".to_string(), "0.0.0.0".to_string()),
        ]
    );
}

#[test]
fn parse_listing_same_port_other_process_kept() {
    let text = "H\na 1 u f t d s TCP *:80\nb 2 u f t d s TCP *:80\na 1 u f t d s TCP *:80\n";
    let v = parse_listing(text);
    assert_eq!(v.len(), 2);
    assert_eq!(v[0].pid, 1);
    assert_eq!(v[1].pid, 2);
}

#[test]
fn scan_output_decodes_bytes() {
    let v = scan_output(LISTING.as_bytes()).unwrap();
    assert_eq!(v.len(), 2);
}

#[test]
fn scan_output_replaces_invalid_utf8() {
    let mut bytes = b"H\nab".to_vec();
    bytes.push(0xff);
    bytes.extend_from_slice(b" 5 u f t d s TCP *:99\n");
    let v = scan_output(&bytes).unwrap();
    assert_eq!(v.len(), 1);
    assert_eq!(v[0].process, "ab\u{fffd}");
    assert_eq!(v[0].port, 99);
}

#[test]
fn scan_output_refuses_unsplittable_name() {
    let text = "H\na 1 u f t d s TCP ]:80\n";
    assert!(scan_output(text.as_bytes()).is_none());
    let text = "H\na 1 u f t d s TCP \u{e9}]:80\n";
    assert!(scan_output(text.as_bytes()).is_none());
    // a row whose PID does not parse never gets to its name
    let text = "H\na x u f t d s TCP ]:80\n";
    assert_eq!(scan_output(text.as_bytes()).unwrap().len(), 0);
}
