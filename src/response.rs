//! One request, one response: the request path is the second word of the
//! request line, and the answer is a fixed-shape HTTP/1.1 response.
use vstd::prelude::*;
use vstd::string::*;
use vstd::utf8::encode_utf8;
use crate::args::{opt_view, PathAndFileName};
use crate::routes::{
    built_from, content_type_of, extension, lemma_route_index_first, lookup, route_index,
    PathAndResponse,
};
use crate::text::{decimal, decimal_string, join, joined, split_words, words};

verus! {

/// The body sent for a path that no route serves.
pub open spec fn unmatched_body() -> Seq<char> {
    "nothing response is set!"@
}

/// The content type sent for a path that no route serves.
pub open spec fn unmatched_type() -> Seq<char> {
    "text/plain"@
}

/// The request path of a request line: its second white-space separated
/// word, if it has one.
pub open spec fn request_path_of(line: Seq<char>) -> Option<Seq<char>> {
    let ws = words(line);
    if ws.len() >= 2 {
        Some(ws[1])
    } else {
        None
    }
}

/// The body and content type served for path `p`: those of the first record
/// with that path, else the placeholder.
pub open spec fn served(table: Seq<PathAndResponse>, p: Seq<char>) -> (Seq<char>, Seq<char>) {
    match route_index(table, p) {
        Some(i) => (table[i].response_body@, table[i].content_type@),
        None => (unmatched_body(), unmatched_type()),
    }
}

/// The number of bytes in the UTF-8 encoding of `s`, as a string in memory
/// reports it.
pub open spec fn byte_len(s: Seq<char>) -> usize {
    encode_utf8(s).len() as usize
}

/// The full text of a response with the given body and content type.
pub open spec fn response_text(
    content_type: Seq<char>,
    body: Seq<char>,
    custom_headers: Seq<Seq<char>>,
) -> Seq<char> {
    "HTTP/1.1 200 OK\n"@ + "Access-Control-Allow-Origin: *\n"@
        + "Access-Control-Allow-Methods: GET,POST,PUT,DELETE,HEAD,OPTIONS\n"@
        + "Access-Control-Allow-Headers: Origin,Authorization,Accept,Content-Type,"@
        + joined(custom_headers, ","@) + "\n"@ + "Content-Type: "@ + content_type
        + "; charset=UTF-8\n"@ + "Content-Length: "@ + decimal(byte_len(body) as nat) + "\n"@
        + "Server: mockun\n"@ + "\n"@ + body + "\n"@
}

/// The response to a request line, if the line names a path.
pub open spec fn response_for(
    table: Seq<PathAndResponse>,
    custom_headers: Seq<Seq<char>>,
    line: Seq<char>,
) -> Option<Seq<char>> {
    match request_path_of(line) {
        None => None,
        Some(p) => Some(response_text(served(table, p).1, served(table, p).0, custom_headers)),
    }
}

/// The request path of a request line, if it has a second word.
pub fn request_path(line: &str) -> (r: Option<String>)
    ensures
        opt_view(r) == request_path_of(line@),
{
    let ws = split_words(line);
    if ws.len() >= 2 {
        Some(ws[1].clone())
    } else {
        None
    }
}

/// Writes the full response for the given body and content type.
pub fn render_response(content_type: &str, body: &str, custom_headers: &Vec<String>) -> (r:
    String)
    ensures
        r@ == response_text(content_type@, body@, custom_headers.deep_view()),
{
    let mut out = String::from_str("HTTP/1.1 200 OK\n");
    out.append("Access-Control-Allow-Origin: *\n");
    out.append("Access-Control-Allow-Methods: GET,POST,PUT,DELETE,HEAD,OPTIONS\n");
    out.append("Access-Control-Allow-Headers: Origin,Authorization,Accept,Content-Type,");
    let hs = join(custom_headers, ",");
    out.append(hs.as_str());
    out.append("\n");
    out.append("Content-Type: ");
    out.append(content_type);
    out.append("; charset=UTF-8\n");
    out.append("Content-Length: ");
    let len = decimal_string(body.len());
    out.append(len.as_str());
    out.append("\n");
    out.append("Server: mockun\n");
    out.append("\n");
    out.append(body);
    out.append("\n");
    assert(out@ =~= response_text(content_type@, body@, custom_headers.deep_view()));
    out
}

/// The body and content type served for `path`.
pub fn serve(table: &Vec<PathAndResponse>, path: &str) -> (r: (String, String))
    ensures
        (r.0@, r.1@) == served(table@, path@),
{
    match lookup(table, path) {
        Some(i) => (table[i].response_body.clone(), table[i].content_type.clone()),
        None => (String::from_str("nothing response is set!"), String::from_str("text/plain")),
    }
}

/// The response to one request line; `None` where the line has no path.
pub fn handle_request(
    table: &Vec<PathAndResponse>,
    custom_headers: &Vec<String>,
    line: &str,
) -> (r: Option<String>)
    ensures
        opt_view(r) == response_for(table@, custom_headers.deep_view(), line@),
{
    match request_path(line) {
        None => None,
        Some(p) => {
            let (body, content_type) = serve(table, p.as_str());
            Some(render_response(content_type.as_str(), body.as_str(), custom_headers))
        },
    }
}

/// In a table built from entries and contents, the first entry for a path
/// is what that path serves: its file's exact contents and the type inferred
/// from its file name.
pub proof fn lemma_configured_path_served(
    table: Seq<PathAndResponse>,
    entries: Seq<PathAndFileName>,
    contents: Seq<String>,
    i: int,
)
    requires
        built_from(table, entries, contents),
        0 <= i < entries.len(),
        forall|j: int| 0 <= j < i ==> (#[trigger] entries[j]).path@ != entries[i].path@,
    ensures
        served(table, entries[i].path@) == (
            contents[i]@,
            content_type_of(extension(entries[i].file_name@)),
        ),
{
    assert forall|j: int| 0 <= j < i implies (#[trigger] table[j]).path@ != entries[i].path@ by {
        assert(table[j].path@ == entries[j].path@);
    }
    assert(table[i].path@ == entries[i].path@);
    lemma_route_index_first(table, entries[i].path@, i);
}

/// Two request lines that name the same path get the same response, byte
/// for byte: nothing that serving reads changes between requests.
pub proof fn lemma_same_path_same_response(
    table: Seq<PathAndResponse>,
    custom_headers: Seq<Seq<char>>,
    first: Seq<char>,
    second: Seq<char>,
)
    requires
        request_path_of(first) == request_path_of(second),
    ensures
        response_for(table, custom_headers, first) == response_for(table, custom_headers, second),
{
}

} // verus!
