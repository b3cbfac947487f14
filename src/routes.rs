//! The route table: records built from route entries and file contents,
//! content types inferred from file names, and first-match lookup.
use vstd::prelude::*;
use vstd::string::*;
use crate::args::PathAndFileName;
use crate::text::{lemma_split_seq_nonempty, split_on, split_seq};

verus! {

/// One servable route: a request path, the full contents of its file, and
/// the content type inferred from the file's name.
#[derive(Debug)]
pub struct PathAndResponse {
    pub path: String,
    pub response_body: String,
    pub content_type: String,
}

/// The final `.`-separated piece of a file name (the whole name if it holds
/// no `.`).
pub open spec fn extension(file_name: Seq<char>) -> Seq<char> {
    split_seq(file_name, '.').last()
}

/// The content type that an extension stands for; anything unknown is plain
/// text.
pub open spec fn content_type_of(ext: Seq<char>) -> Seq<char> {
    if ext == "json"@ {
        "application/json"@
    } else if ext == "js"@ {
        "application/javascript"@
    } else if ext == "html"@ {
        "text/html"@
    } else {
        "text/plain"@
    }
}

/// The content type inferred from a file name.
pub fn content_type(file_name: &str) -> (r: String)
    ensures
        r@ == content_type_of(extension(file_name@)),
{
    let pieces = split_on(file_name, '.');
    proof {
        lemma_split_seq_nonempty(file_name@, '.');
    }
    let ext = &pieces[pieces.len() - 1];
    assert(ext@ == extension(file_name@));
    if *ext == String::from_str("json") {
        String::from_str("application/json")
    } else if *ext == String::from_str("js") {
        String::from_str("application/javascript")
    } else if *ext == String::from_str("html") {
        String::from_str("text/html")
    } else {
        String::from_str("text/plain")
    }
}

/// `table` holds, in order, one record per entry: the entry's path, the
/// matching contents, and the type inferred from the entry's file name.
pub open spec fn built_from(
    table: Seq<PathAndResponse>,
    entries: Seq<PathAndFileName>,
    contents: Seq<String>,
) -> bool {
    &&& table.len() == entries.len()
    &&& forall|i: int|
        0 <= i < table.len() ==> {
            &&& #[trigger] table[i].path@ == entries[i].path@
            &&& table[i].response_body@ == contents[i]@
            &&& table[i].content_type@ == content_type_of(extension(entries[i].file_name@))
        }
}

/// Builds the route table from the entries and the contents of their files,
/// given in the same order.
pub fn make_responses(entries: &Vec<PathAndFileName>, contents: &Vec<String>) -> (r: Vec<
    PathAndResponse,
>)
    requires
        contents.len() == entries.len(),
    ensures
        built_from(r@, entries@, contents@),
{
    let mut table: Vec<PathAndResponse> = Vec::new();
    let mut i: usize = 0;
    while i < entries.len()
        invariant
            i <= entries.len(),
            contents.len() == entries.len(),
            table.len() == i,
            forall|k: int|
                0 <= k < i ==> {
                    &&& #[trigger] table@[k].path@ == entries@[k].path@
                    &&& table@[k].response_body@ == contents@[k]@
                    &&& table@[k].content_type@ == content_type_of(
                        extension(entries@[k].file_name@),
                    )
                },
        decreases entries.len() - i,
    {
        let e = &entries[i];
        table.push(
            PathAndResponse {
                path: e.path.clone(),
                response_body: contents[i].clone(),
                content_type: content_type(e.file_name.as_str()),
            },
        );
        i = i + 1;
    }
    table
}

/// The index of the first record whose path is `p`, if any.
pub open spec fn route_index(table: Seq<PathAndResponse>, p: Seq<char>) -> Option<int>
    decreases table.len(),
{
    if table.len() == 0 {
        None
    } else {
        match route_index(table.drop_last(), p) {
            Some(i) => Some(i),
            None => if table.last().path@ == p {
                Some(table.len() - 1)
            } else {
                None
            },
        }
    }
}

/// The index of the first record whose path is `path`, if any.
pub fn lookup(table: &Vec<PathAndResponse>, path: &str) -> (r: Option<usize>)
    ensures
        match r {
            Some(i) => i < table.len() && route_index(table@, path@) == Some(i as int),
            None => route_index(table@, path@) == None::<int>,
        },
{
    let mut i: usize = 0;
    assert(table@.subrange(0, 0) =~= Seq::<PathAndResponse>::empty());
    while i < table.len()
        invariant
            i <= table.len(),
            route_index(table@.subrange(0, i as int), path@) == None::<int>,
        decreases table.len() - i,
    {
        let ghost t = table@.subrange(0, i + 1);
        assert(t.drop_last() =~= table@.subrange(0, i as int));
        if text_eq(table[i].path.as_str(), path) {
            proof {
                lemma_route_index_prefix(table@, path@, i as int);
            }
            return Some(i);
        }
        i = i + 1;
    }
    assert(table@.subrange(0, i as int) =~= table@);
    None
}

/// Whether two strings hold the same characters.
fn text_eq(a: &str, b: &str) -> (r: bool)
    ensures
        r == (a@ == b@),
{
    let n = a.unicode_len();
    if n != b.unicode_len() {
        return false;
    }
    let mut i: usize = 0;
    while i < n
        invariant
            n == a@.len(),
            n == b@.len(),
            i <= n,
            forall|k: int| 0 <= k < i ==> a@[k] == b@[k],
        decreases n - i,
    {
        if a.get_char(i) != b.get_char(i) {
            return false;
        }
        i = i + 1;
    }
    assert(a@ =~= b@);
    true
}

/// Where no record before `i` has path `p` and record `i` has it, `i` is the
/// first such record.
proof fn lemma_route_index_prefix(table: Seq<PathAndResponse>, p: Seq<char>, i: int)
    requires
        0 <= i < table.len(),
        route_index(table.subrange(0, i), p) == None::<int>,
        table[i].path@ == p,
    ensures
        route_index(table, p) == Some(i),
    decreases table.len(),
{
    if i + 1 == table.len() {
        assert(table.drop_last() =~= table.subrange(0, i));
    } else {
        assert(table.drop_last().subrange(0, i) =~= table.subrange(0, i));
        lemma_route_index_prefix(table.drop_last(), p, i);
    }
}

/// Where record `i` is the first with path `p`, lookup finds it.
pub proof fn lemma_route_index_first(table: Seq<PathAndResponse>, p: Seq<char>, i: int)
    requires
        0 <= i < table.len(),
        table[i].path@ == p,
        forall|j: int| 0 <= j < i ==> (#[trigger] table[j]).path@ != p,
    ensures
        route_index(table, p) == Some(i),
{
    lemma_route_index_absent(table.subrange(0, i), p);
    lemma_route_index_prefix(table, p, i);
}

/// Where no record has path `p`, lookup finds none.
proof fn lemma_route_index_absent(table: Seq<PathAndResponse>, p: Seq<char>)
    requires
        forall|j: int| 0 <= j < table.len() ==> (#[trigger] table[j]).path@ != p,
    ensures
        route_index(table, p) == None::<int>,
    decreases table.len(),
{
    if table.len() > 0 {
        let init = table.drop_last();
        assert forall|j: int| 0 <= j < init.len() implies (#[trigger] init[j]).path@ != p by {
            assert(init[j] == table[j]);
        }
        lemma_route_index_absent(init, p);
        assert(table.last() == table[table.len() - 1]);
    }
}

} // verus!
