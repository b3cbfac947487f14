use mockun::args::{parse_args, PathAndFileName};
use mockun::response::{handle_request, render_response, request_path, serve};
use mockun::routes::{content_type, lookup, make_responses, PathAndResponse};
use mockun::text::{decimal_string, join, split_on, split_words, starts_with, trim};

fn strings(items: &[&str]) -> Vec<String> {
    items.iter().map(|s| s.to_string()).collect()
}

fn entry(path: &str, file_name: &str) -> PathAndFileName {
    PathAndFileName { path: path.to_string(), file_name: file_name.to_string() }
}

fn sample_table() -> Vec<PathAndResponse> {
    let entries = vec![entry("/a", "data/a.json"), entry("/b", "b.html"), entry("/a", "other.js")];
    make_responses(&entries, &strings(&["{\"a\":1}", "<p>b</p>", "second"]))
}

#[test]
fn content_types_by_extension() {
    assert_eq!(content_type("a.json"), "application/json");
    assert_eq!(content_type("a.js"), "application/javascript");
    assert_eq!(content_type("a.text"), "text/plain");
    assert_eq!(content_type("a.html"), "text/html");
    assert_eq!(content_type("a.png"), "text/plain");
    assert_eq!(content_type("a"), "text/plain");
    assert_eq!(content_type("./dir.v2/page.HTML"), "text/plain");
    assert_eq!(content_type("./dir/x.min.js"), "application/javascript");
}

#[test]
fn table_has_one_record_per_entry_in_order() {
    let table = sample_table();
    assert_eq!(table.len(), 3);
    assert_eq!(table[0].path, "/a");
    assert_eq!(table[0].response_body, "{\"a\":1}");
    assert_eq!(table[0].content_type, "application/json");
    assert_eq!(table[1].path, "/b");
    assert_eq!(table[1].content_type, "text/html");
    assert_eq!(table[2].response_body, "second");
    assert_eq!(table[2].content_type, "application/javascript");
}

#[test]
fn lookup_first_match_wins() {
    let table = sample_table();
    assert_eq!(lookup(&table, "/a"), Some(0));
    assert_eq!(lookup(&table, "/b"), Some(1));
    assert_eq!(lookup(&table, "/c"), None);
    assert_eq!(serve(&table, "/a"), ("{\"a\":1}".to_string(), "application/json".to_string()));
}

#[test]
fn unmatched_path_gets_placeholder() {
    let table = sample_table();
    assert_eq!(
        serve(&table, "/missing"),
        ("nothing response is set!".to_string(), "text/plain".to_string())
    );
    let r = handle_request(&table, &vec![], "GET /missing HTTP/1.1\r\n").unwrap();
    assert!(r.starts_with("HTTP/1.1 200 OK\n"));
    assert!(r.contains("Content-Type: text/plain; charset=UTF-8\n"));
    assert!(r.contains("Content-Length: 24\n"));
    assert!(r.ends_with("\n\nnothing response is set!\n"));
}

#[test]
fn request_path_is_second_word() {
    assert_eq!(request_path("GET /a HTTP/1.1\r\n"), Some("/a".to_string()));
    assert_eq!(request_path("  POST\t/x?q=1  "), Some("/x?q=1".to_string()));
    assert_eq!(request_path("GET\r\n"), None);
    assert_eq!(request_path(""), None);
}

#[test]
fn malformed_request_line_gets_no_response() {
    let table = sample_table();
    assert_eq!(handle_request(&table, &vec![], "GET"), None);
}

#[test]
fn same_path_twice_gives_identical_responses() {
    let table = sample_table();
    let headers = strings(&["x-a"]);
    let first = handle_request(&table, &headers, "GET /b HTTP/1.1\r\n").unwrap();
    let second = handle_request(&table, &headers, "POST /b HTTP/1.0\n").unwrap();
    assert_eq!(first, second);
}

#[test]
fn response_layout_is_exact() {
    let r = render_response("text/html", "<p>é</p>", &strings(&["x-a", "x-b"]));
    assert_eq!(
        r,
        "HTTP/1.1 200 OK\n\
         Access-Control-Allow-Origin: *\n\
         Access-Control-Allow-Methods: GET,POST,PUT,DELETE,HEAD,OPTIONS\n\
         Access-Control-Allow-Headers: Origin,Authorization,Accept,Content-Type,x-a,x-b\n\
         Content-Type: text/html; charset=UTF-8\n\
         Content-Length: 9\n\
         Server: mockun\n\
         \n\
         <p>é</p>\n"
    );
}

#[test]
fn end_to_end_example() {
    let args = parse_args(&strings(&["-p", "6789", "-h", "x-debug", "/aa:./response.json"])).unwrap();
    let table = make_responses(&args.path_and_file_names, &strings(&["{\"k\":1}"]));
    let r = handle_request(&table, &args.custom_headers, "GET /aa HTTP/1.1\r\n").unwrap();
    assert!(r.starts_with("HTTP/1.1 200 OK\n"));
    assert!(r.contains("Content-Type: application/json; charset=UTF-8\n"));
    assert!(r.contains("Content-Length: 7\n"));
    assert!(r.contains("\nAccess-Control-Allow-Headers: Origin,Authorization,Accept,Content-Type,x-debug\n"));
    assert!(r.ends_with("\n\n{\"k\":1}\n"));
}

#[test]
fn text_helpers() {
    assert!(starts_with("-p7878", "-p"));
    assert!(!starts_with("-", "-p"));
    assert_eq!(trim("  a b \t"), "a b");
    assert_eq!(trim(" \n "), "");
    assert_eq!(split_on("a,,b", ','), strings(&["a", "", "b"]));
    assert_eq!(split_on("", ','), strings(&[""]));
    assert_eq!(split_words(" GET  /a\tx "), strings(&["GET", "/a", "x"]));
    assert_eq!(join(&strings(&["a", "b", "c"]), ","), "a,b,c");
    assert_eq!(join(&vec![], ","), "");
    assert_eq!(decimal_string(0), "0");
    assert_eq!(decimal_string(7), "7");
    assert_eq!(decimal_string(1203), "1203");
}
