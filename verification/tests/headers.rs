use komodo_guard::headers::{
    check_headers_file, parse_header_entries, parse_headers, HeadersErrorKind, HeadersFileError,
};

const SECRET: &str = "super-secret-value";

fn message_of(contents: &str) -> String {
    parse_headers(contents).unwrap_err().message()
}

#[test]
fn parses_headers_ignoring_blank_lines_and_comments() {
    let headers = parse_headers(&format!(
        "# Cloudflare Access\n\nCF-Access-Client-Id: abc.access\n  CF-Access-Client-Secret : {SECRET}  \n"
    ))
    .unwrap();
    assert_eq!(headers.len(), 2);
    assert_eq!(headers["cf-access-client-id"], "abc.access");
    assert_eq!(headers["cf-access-client-secret"], SECRET);
    assert!(headers["cf-access-client-secret"].is_sensitive());
}

#[test]
fn keeps_colons_in_values() {
    let headers = parse_headers("X-Token: a:b:c").unwrap();
    assert_eq!(headers["x-token"], "a:b:c");
}

#[test]
fn rejects_invalid_lines_without_leaking_values() {
    for contents in [
        SECRET.to_string(),
        format!("Bad Name: {SECRET}"),
        format!("X-Token: {SECRET}\u{7f}"),
        format!("Host: {SECRET}"),
        format!("Sec-WebSocket-Key: {SECRET}"),
        "X-Token:".to_string(),
        "# only a comment".to_string(),
    ] {
        let error = message_of(&contents);
        assert!(!error.contains(SECRET), "{error}");
    }
}

#[test]
fn debug_output_redacts_values() {
    let headers = parse_headers(&format!("X-Token: {SECRET}")).unwrap();
    assert!(!format!("{headers:?}").contains(SECRET));
}

#[test]
fn error_messages_name_line_and_header() {
    assert_eq!(message_of("a: b\nnot a header"), "Line 2: expected 'Name: value'");
    assert_eq!(
        message_of("Bad Name: x"),
        "Line 1: invalid header name: invalid HTTP header name"
    );
    assert_eq!(
        message_of("\n\nHOST: x"),
        "Line 3: header 'host' is set by the websocket handshake"
    );
    assert_eq!(
        message_of("Sec-WebSocket-Key: x"),
        "Line 1: header 'sec-websocket-key' is set by the websocket handshake"
    );
    assert_eq!(message_of("X-Token:   "), "Line 1: header 'x-token' has an empty value");
    assert_eq!(
        message_of("X-Token: a\u{7f}b"),
        "Line 1: header 'x-token' has an invalid value"
    );
    assert_eq!(message_of(""), "File contains no headers");
    assert_eq!(message_of("  # comment\n\n"), "File contains no headers");
}

#[test]
fn error_kinds_and_lines() {
    let e = parse_header_entries("x: 1\ny: 2\n\nContent-Length: 3").unwrap_err();
    assert_eq!(e.kind, HeadersErrorKind::Reserved);
    assert_eq!(e.line, 4);
    assert_eq!(e.name, "content-length");
    let e = parse_header_entries("x: 1\n: 2").unwrap_err();
    assert_eq!(e.kind, HeadersErrorKind::InvalidName);
    assert_eq!(e.line, 2);
    assert_eq!(e.name, "");
    assert_eq!(e.cause, "invalid HTTP header name");
    let e = parse_header_entries("x\u{e9}: 1").unwrap_err();
    assert_eq!(e.kind, HeadersErrorKind::InvalidName);
}

#[test]
fn entries_are_lowercased_and_trimmed_in_order() {
    let entries =
        parse_header_entries("\r\nB-Header:\tsecond value \r\n# skip: me\r\nA-Header :x:y\n")
            .unwrap();
    assert_eq!(
        entries,
        vec![
            ("b-header".to_string(), "second value".to_string()),
            ("a-header".to_string(), "x:y".to_string()),
        ]
    );
}

#[test]
fn repeated_names_keep_every_value() {
    let headers = parse_headers("X-A: 1\nX-B: 3\nx-a: 2").unwrap();
    assert_eq!(headers.len(), 3);
    let values: Vec<_> = headers.get_all("x-a").iter().collect();
    assert_eq!(values, vec!["1", "2"]);
    assert!(headers.values().all(|v| v.is_sensitive()));
    let names: Vec<_> = headers.keys().map(|k| k.as_str()).collect();
    assert_eq!(names, vec!["x-a", "x-b"]);
}

#[test]
fn values_may_hold_non_ascii_text() {
    let headers = parse_headers("X-Name: caf\u{e9} \u{2014} ok").unwrap();
    assert_eq!(headers["x-name"].as_bytes(), "caf\u{e9} \u{2014} ok".as_bytes());
}

#[test]
fn reads_owner_only_file() {
    assert_eq!(check_headers_file(true, 1000, 0o100600, 1000), Ok(()));
    assert_eq!(check_headers_file(true, 1000, 0o100400, 1000), Ok(()));
    let headers = parse_headers(&format!("X-Token: {SECRET}")).unwrap();
    assert_eq!(headers["x-token"], SECRET);
}

#[test]
fn rejects_group_or_other_access() {
    for mode in [0o640, 0o604, 0o620, 0o602, 0o644, 0o660] {
        let error = check_headers_file(true, 1000, 0o100000 | mode, 1000).unwrap_err();
        assert_eq!(error, HeadersFileError::TooPermissive { mode });
        let message = error.message();
        assert!(message.contains("chmod 600"), "{mode:o}: {message}");
        assert!(message.contains(&format!("File mode is {mode:o},")), "{message}");
        assert!(!message.contains(SECRET));
    }
}

#[test]
fn rejects_file_owned_by_another_user() {
    let error = check_headers_file(true, 1001, 0o100600, 1000).unwrap_err();
    assert_eq!(error, HeadersFileError::WrongOwner { owner: 1001, expected: 1000 });
    let message = error.message();
    assert!(message.contains("owned by uid"), "{message}");
    assert_eq!(message, "File is owned by uid 1001, but Periphery runs as uid 1000");
}

#[test]
fn rejects_what_is_not_a_regular_file() {
    let error = check_headers_file(false, 1000, 0o40700, 1000).unwrap_err();
    assert_eq!(error, HeadersFileError::NotRegularFile);
    assert_eq!(error.message(), "Not a regular file");
    assert_eq!(
        check_headers_file(true, 0, 0o100777, 0).unwrap_err().message(),
        "File mode is 777, it must not be accessible by group or others (chmod 600)"
    );
}

#[test]
fn comment_lines_do_not_change_headers() {
    let plain = parse_header_entries("A: 1\nB: 2").unwrap();
    let commented = parse_header_entries("# intro\nA: 1\n   # A: 3\n\nB: 2\n#").unwrap();
    assert_eq!(plain, commented);
}

#[test]
fn summaries_leave_out_the_cause() {
    let error = parse_headers("Bad Name: x").unwrap_err();
    assert_eq!(error.summary(), "Line 1: invalid header name");
    assert_eq!(error.message(), "Line 1: invalid header name: invalid HTTP header name");
    let error = parse_headers("X-Token:").unwrap_err();
    assert_eq!(error.summary(), "Line 1: header 'x-token' has an empty value");
    assert_eq!(error.summary(), error.message());
}

#[test]
fn many_lines_with_few_names_fit_the_map() {
    let mut contents = String::new();
    for i in 0..7000 {
        let name = if i % 2 == 0 { "X-Even" } else { "X-Odd" };
        contents.push_str(&format!("{name}: {i}\n"));
    }
    let headers = parse_headers(&contents).unwrap();
    assert_eq!(headers.len(), 7000);
    assert_eq!(headers.keys_len(), 2);
    assert_eq!(headers.get_all("x-odd").iter().count(), 3500);
    assert_eq!(headers.get("x-even").unwrap().as_bytes(), b"0");
}
