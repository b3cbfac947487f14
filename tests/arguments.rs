use mockun::args::{
    extract_flg_and_value, host_address, normalize_args, parse_args, parse_custom_headers,
    UsageError,
};

fn strings(items: &[&str]) -> Vec<String> {
    items.iter().map(|s| s.to_string()).collect()
}

#[test]
fn normalize_splits_attached_port() {
    assert_eq!(normalize_args(&strings(&["-p7878"])), strings(&["-p", "7878"]));
}

#[test]
fn normalize_keeps_separate_port() {
    assert_eq!(normalize_args(&strings(&["-p", "7878"])), strings(&["-p", "7878"]));
}

#[test]
fn normalize_passes_other_tokens_through() {
    assert_eq!(
        normalize_args(&strings(&["/a:a.json", "-hx-debug", "-h", "/b:b.js"])),
        strings(&["/a:a.json", "-h", "x-debug", "-h", "/b:b.js"])
    );
}

#[test]
fn extract_header_flag_and_value() {
    let (value, rest) = extract_flg_and_value("-h", &strings(&["-h", "a, b ,c", "/x:/f"])).unwrap();
    assert_eq!(value, Some("a, b ,c".to_string()));
    assert_eq!(rest, strings(&["/x:/f"]));
}

#[test]
fn extract_takes_first_occurrence_only() {
    let (value, rest) =
        extract_flg_and_value("-p", &strings(&["/x:/f", "-p", "1", "-p", "2"])).unwrap();
    assert_eq!(value, Some("1".to_string()));
    assert_eq!(rest, strings(&["/x:/f", "-p", "2"]));
}

#[test]
fn extract_absent_flag_leaves_tokens() {
    let (value, rest) = extract_flg_and_value("-p", &strings(&["/x:/f"])).unwrap();
    assert_eq!(value, None);
    assert_eq!(rest, strings(&["/x:/f"]));
}

#[test]
fn extract_flag_at_end_is_usage_error() {
    assert_eq!(extract_flg_and_value("-p", &strings(&["-p"])), Err(UsageError::MissingFlagValue));
}

#[test]
fn custom_headers_are_split_and_trimmed() {
    let (headers, rest) = parse_custom_headers(&strings(&["-h", "a, b ,c", "/x:/f"])).unwrap();
    assert_eq!(headers, strings(&["a", "b", "c"]));
    assert_eq!(rest, strings(&["/x:/f"]));
}

#[test]
fn custom_headers_default_to_none() {
    let (headers, rest) = parse_custom_headers(&strings(&["/x:/f"])).unwrap();
    assert!(headers.is_empty());
    assert_eq!(rest, strings(&["/x:/f"]));
}

#[test]
fn custom_headers_trim_unicode_space() {
    let (headers, _) = parse_custom_headers(&strings(&["-h", "\u{3000}x\t,\ny "])).unwrap();
    assert_eq!(headers, strings(&["x", "y"]));
}

#[test]
fn parse_full_command_line() {
    let args = parse_args(&strings(&["-p", "6789", "-h", "x-debug", "/aa:./response.json"])).unwrap();
    assert_eq!(args.port_opt, Some("6789".to_string()));
    assert_eq!(args.custom_headers, strings(&["x-debug"]));
    assert_eq!(args.path_and_file_names.len(), 1);
    assert_eq!(args.path_and_file_names[0].path, "/aa");
    assert_eq!(args.path_and_file_names[0].file_name, "./response.json");
}

#[test]
fn parse_keeps_route_order() {
    let args = parse_args(&strings(&["-p7000", "/b:b.js", "/a:a.html", "/c:c"])).unwrap();
    assert_eq!(args.port_opt, Some("7000".to_string()));
    assert!(args.custom_headers.is_empty());
    let paths: Vec<&str> = args.path_and_file_names.iter().map(|e| e.path.as_str()).collect();
    let files: Vec<&str> = args.path_and_file_names.iter().map(|e| e.file_name.as_str()).collect();
    assert_eq!(paths, vec!["/b", "/a", "/c"]);
    assert_eq!(files, vec!["b.js", "a.html", "c"]);
}

#[test]
fn parse_without_routes_is_usage_error() {
    assert_eq!(parse_args(&strings(&["-p", "1"])).unwrap_err(), UsageError::NoRoutes);
    assert_eq!(parse_args(&strings(&[])).unwrap_err(), UsageError::NoRoutes);
}

#[test]
fn parse_malformed_route_is_usage_error() {
    assert_eq!(parse_args(&strings(&["/a:b:c"])).unwrap_err(), UsageError::MalformedRoute);
    assert_eq!(parse_args(&strings(&["/a:a.json", "nocolon"])).unwrap_err(), UsageError::MalformedRoute);
}

#[test]
fn parse_dangling_flag_is_usage_error() {
    assert_eq!(parse_args(&strings(&["/a:a.json", "-h"])).unwrap_err(), UsageError::MissingFlagValue);
    assert_eq!(parse_args(&strings(&["-p"])).unwrap_err(), UsageError::MissingFlagValue);
}

#[test]
fn parse_repeated_flag_fails_as_route() {
    assert_eq!(
        parse_args(&strings(&["-p", "1", "-p", "2", "/a:a"])).unwrap_err(),
        UsageError::MalformedRoute
    );
}

#[test]
fn host_defaults_to_port_7878() {
    assert_eq!(host_address(&None), "127.0.0.1:7878");
    assert_eq!(host_address(&Some("6789".to_string())), "127.0.0.1:6789");
}
