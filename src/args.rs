//! Command-line handling: the normalizer, the option extractor, and the
//! parse of the remaining `path:file` tokens into route entries.
use vstd::prelude::*;
use vstd::string::*;
use crate::text::{has_prefix, split_seq, starts_with, trim, trimmed, split_on};

verus! {

/// A reason why the command line cannot be used.
#[derive(Debug, Clone, Copy, PartialEq, Eq, Structural)]
pub enum UsageError {
    /// A flag is the last token, with no value after it.
    MissingFlagValue,
    /// A route token does not split on `:` into exactly two pieces.
    MalformedRoute,
    /// No route token is left.
    NoRoutes,
}

/// A request path paired with the file whose contents answer it.
#[derive(Debug)]
pub struct PathAndFileName {
    pub path: String,
    pub file_name: String,
}

/// The fully parsed command line.
#[derive(Debug)]
pub struct Args {
    pub path_and_file_names: Vec<PathAndFileName>,
    pub port_opt: Option<String>,
    pub custom_headers: Vec<String>,
}

/// The port flag.
pub open spec fn port_flag() -> Seq<char> {
    "-p"@
}

/// The custom-header flag.
pub open spec fn header_flag() -> Seq<char> {
    "-h"@
}

/// `a` begins with one of the two recognised flags.
pub open spec fn is_flag_token(a: Seq<char>) -> bool {
    has_prefix(a, port_flag()) || has_prefix(a, header_flag())
}

/// One argument as the normalizer rewrites it: a flag token splits into the
/// two-character flag and, if anything follows it, the rest as a value.
pub open spec fn normalize_one(a: Seq<char>) -> Seq<Seq<char>> {
    if is_flag_token(a) {
        if a.len() == 2 {
            seq![a]
        } else {
            seq![a.subrange(0, 2), a.subrange(2, a.len() as int)]
        }
    } else {
        seq![a]
    }
}

/// The normalized token stream of `args`, in order.
pub open spec fn normalized(args: Seq<Seq<char>>) -> Seq<Seq<char>>
    decreases args.len(),
{
    if args.len() == 0 {
        Seq::empty()
    } else {
        normalized(args.drop_last()) + normalize_one(args.last())
    }
}

/// The index of the first token that starts with `flag`, if any.
pub open spec fn first_flag(args: Seq<Seq<char>>, flag: Seq<char>) -> Option<int>
    decreases args.len(),
{
    if args.len() == 0 {
        None
    } else {
        match first_flag(args.drop_last(), flag) {
            Some(i) => Some(i),
            None => if has_prefix(args.last(), flag) {
                Some(args.len() - 1)
            } else {
                None
            },
        }
    }
}

/// What extracting `flag` from `args` gives: the value after its first
/// occurrence and the tokens with both removed, or an error where the flag
/// is the last token.
pub open spec fn extracted(args: Seq<Seq<char>>, flag: Seq<char>) -> Result<
    (Option<Seq<char>>, Seq<Seq<char>>),
    UsageError,
> {
    match first_flag(args, flag) {
        None => Ok((None, args)),
        Some(i) => if i + 1 < args.len() {
            Ok((Some(args[i + 1]), args.subrange(0, i) + args.subrange(i + 2, args.len() as int)))
        } else {
            Err(UsageError::MissingFlagValue)
        },
    }
}

/// The model of an optional string.
pub open spec fn opt_view(o: Option<String>) -> Option<Seq<char>> {
    match o {
        Some(s) => Some(s@),
        None => None,
    }
}

/// The header names given by the value of the header flag: its
/// comma-separated pieces, each trimmed; none without the flag.
pub open spec fn header_list(value: Option<Seq<char>>) -> Seq<Seq<char>> {
    match value {
        None => Seq::empty(),
        Some(v) => split_seq(v, ',').map_values(|p: Seq<char>| trimmed(p)),
    }
}

/// The route entry that a token denotes: its two `:`-separated pieces.
pub open spec fn route_entry(tok: Seq<char>) -> Option<(Seq<char>, Seq<char>)> {
    let ps = split_seq(tok, ':');
    if ps.len() == 2 {
        Some((ps[0], ps[1]))
    } else {
        None
    }
}

/// The route entries of `toks`, in order, or an error if one is malformed.
pub open spec fn route_entries(toks: Seq<Seq<char>>) -> Result<
    Seq<(Seq<char>, Seq<char>)>,
    UsageError,
>
    decreases toks.len(),
{
    if toks.len() == 0 {
        Ok(Seq::empty())
    } else {
        match route_entries(toks.drop_last()) {
            Err(e) => Err(e),
            Ok(es) => match route_entry(toks.last()) {
                Some(p) => Ok(es.push(p)),
                None => Err(UsageError::MalformedRoute),
            },
        }
    }
}

/// The model of a list of route entries.
pub open spec fn entry_views(es: Seq<PathAndFileName>) -> Seq<(Seq<char>, Seq<char>)> {
    es.map_values(|e: PathAndFileName| (e.path@, e.file_name@))
}

/// What the whole command line means: the port value, the header names and
/// the route entries, or the first usage error met.
pub open spec fn parsed(args: Seq<Seq<char>>) -> Result<
    (Option<Seq<char>>, Seq<Seq<char>>, Seq<(Seq<char>, Seq<char>)>),
    UsageError,
> {
    match extracted(normalized(args), port_flag()) {
        Err(e) => Err(e),
        Ok((port, rest)) => match extracted(rest, header_flag()) {
            Err(e) => Err(e),
            Ok((hv, toks)) => match route_entries(toks) {
                Err(e) => Err(e),
                Ok(es) => if es.len() == 0 {
                    Err(UsageError::NoRoutes)
                } else {
                    Ok((port, header_list(hv), es))
                },
            },
        },
    }
}

/// Rewrites the arguments (program name excluded) into a stream where each
/// flag stands alone, followed by its value if the value was attached.
pub fn normalize_args(args: &Vec<String>) -> (r: Vec<String>)
    ensures
        r.deep_view() == normalized(args.deep_view()),
{
    let mut out: Vec<String> = Vec::new();
    let mut i: usize = 0;
    assert(args.deep_view().subrange(0, 0) =~= Seq::<Seq<char>>::empty());
    while i < args.len()
        invariant
            i <= args.len(),
            out.deep_view() == normalized(args.deep_view().subrange(0, i as int)),
        decreases args.len() - i,
    {
        let a = args[i].as_str();
        let ghost prev = out.deep_view();
        let ghost t = args.deep_view().subrange(0, i + 1);
        assert(t.drop_last() =~= args.deep_view().subrange(0, i as int));
        assert(t.last() == a@);
        let is_p = starts_with(a, "-p");
        let is_h = starts_with(a, "-h");
        if is_p || is_h {
            let n = a.unicode_len();
            proof {
                reveal_strlit("-p");
                reveal_strlit("-h");
            }
            out.push(a.substring_char(0, 2).to_owned());
            if n > 2 {
                out.push(a.substring_char(2, n).to_owned());
            } else {
                assert(a@.subrange(0, 2) =~= a@);
            }
        } else {
            out.push(args[i].clone());
        }
        assert(out.deep_view() =~= prev + normalize_one(a@));
        i = i + 1;
    }
    assert(args.deep_view().subrange(0, args.len() as int) =~= args.deep_view());
    out
}

/// Appends clones of `args[from..to]` to `out`.
fn copy_range(args: &Vec<String>, from: usize, to: usize, out: &mut Vec<String>)
    requires
        from <= to <= args.len(),
    ensures
        final(out).deep_view() == old(out).deep_view() + args.deep_view().subrange(
            from as int,
            to as int,
        ),
{
    let mut k: usize = from;
    let ghost start = out.deep_view();
    assert(args.deep_view().subrange(from as int, from as int) =~= Seq::<Seq<char>>::empty());
    assert(start + Seq::<Seq<char>>::empty() =~= start);
    while k < to
        invariant
            from <= k <= to <= args.len(),
            out.deep_view() == start + args.deep_view().subrange(from as int, k as int),
        decreases to - k,
    {
        let ghost prev = out.deep_view();
        out.push(args[k].clone());
        assert(out.deep_view() =~= prev.push(args[k as int]@));
        assert(args.deep_view().subrange(from as int, k + 1) =~= args.deep_view().subrange(
            from as int,
            k as int,
        ).push(args[k as int]@));
        assert(out.deep_view() =~= start + args.deep_view().subrange(from as int, k + 1));
        k = k + 1;
    }
}

/// Pulls the first token that starts with `flag`, and the token after it,
/// out of `args`. Without the flag the tokens come back unchanged; a flag
/// with nothing after it is a usage error.
pub fn extract_flg_and_value(flag: &str, args: &Vec<String>) -> (r: Result<
    (Option<String>, Vec<String>),
    UsageError,
>)
    ensures
        match r {
            Ok((v, rest)) => extracted(args.deep_view(), flag@) == Ok::<
                (Option<Seq<char>>, Seq<Seq<char>>),
                UsageError,
            >((opt_view(v), rest.deep_view())),
            Err(e) => extracted(args.deep_view(), flag@) == Err::<
                (Option<Seq<char>>, Seq<Seq<char>>),
                UsageError,
            >(e),
        },
{
    let n = args.len();
    let mut i: usize = 0;
    assert(args.deep_view().subrange(0, 0) =~= Seq::<Seq<char>>::empty());
    while i < n && !starts_with(args[i].as_str(), flag)
        invariant
            n == args.len(),
            i <= n,
            first_flag(args.deep_view().subrange(0, i as int), flag@) == None::<int>,
        decreases n - i,
    {
        let ghost t = args.deep_view().subrange(0, i + 1);
        assert(t.drop_last() =~= args.deep_view().subrange(0, i as int));
        i = i + 1;
    }
    if i == n {
        assert(args.deep_view().subrange(0, n as int) =~= args.deep_view());
        return Ok((None, args.clone()));
    }
    proof {
        lemma_first_flag_prefix(args.deep_view(), flag@, i as int);
    }
    if i + 1 == n {
        return Err(UsageError::MissingFlagValue);
    }
    let mut rest: Vec<String> = Vec::new();
    copy_range(args, 0, i, &mut rest);
    copy_range(args, i + 2, n, &mut rest);
    assert(rest.deep_view() =~= args.deep_view().subrange(0, i as int) + args.deep_view().subrange(
        i + 2,
        n as int,
    ));
    Ok((Some(args[i + 1].clone()), rest))
}

/// Where no token before `i` starts with `flag` and token `i` does, `i` is
/// the first such token.
proof fn lemma_first_flag_prefix(args: Seq<Seq<char>>, flag: Seq<char>, i: int)
    requires
        0 <= i < args.len(),
        first_flag(args.subrange(0, i), flag) == None::<int>,
        has_prefix(args[i], flag),
    ensures
        first_flag(args, flag) == Some(i),
    decreases args.len(),
{
    if i + 1 == args.len() {
        assert(args.drop_last() =~= args.subrange(0, i));
    } else {
        assert(args.drop_last().subrange(0, i) =~= args.subrange(0, i));
        lemma_first_flag_prefix(args.drop_last(), flag, i);
    }
}

/// The header names in the value of the header flag, each trimmed.
fn header_names(value: &str) -> (r: Vec<String>)
    ensures
        r.deep_view() == header_list(Some(value@)),
{
    let pieces = split_on(value, ',');
    let mut out: Vec<String> = Vec::new();
    let mut i: usize = 0;
    while i < pieces.len()
        invariant
            i <= pieces.len(),
            pieces.deep_view() == split_seq(value@, ','),
            out.deep_view() == pieces.deep_view().subrange(0, i as int).map_values(
                |p: Seq<char>| trimmed(p),
            ),
        decreases pieces.len() - i,
    {
        let ghost prev = out.deep_view();
        out.push(trim(pieces[i].as_str()));
        assert(out.deep_view() =~= prev.push(trimmed(pieces[i as int]@)));
        assert(pieces.deep_view().subrange(0, i + 1).map_values(|p: Seq<char>| trimmed(p))
            =~= pieces.deep_view().subrange(0, i as int).map_values(|p: Seq<char>| trimmed(p)).push(
            trimmed(pieces[i as int]@),
        ));
        i = i + 1;
    }
    assert(pieces.deep_view().subrange(0, pieces.len() as int) =~= pieces.deep_view());
    out
}

/// Pulls the header flag and its value out of `args`, and splits the value
/// into trimmed header names; without the flag there are none.
pub fn parse_custom_headers(args: &Vec<String>) -> (r: Result<
    (Vec<String>, Vec<String>),
    UsageError,
>)
    ensures
        match r {
            Ok((hs, rest)) => {
                &&& extracted(args.deep_view(), header_flag()) is Ok
                &&& hs.deep_view() == header_list(
                    extracted(args.deep_view(), header_flag())->Ok_0.0,
                )
                &&& rest.deep_view() == extracted(args.deep_view(), header_flag())->Ok_0.1
            },
            Err(e) => extracted(args.deep_view(), header_flag()) == Err::<
                (Option<Seq<char>>, Seq<Seq<char>>),
                UsageError,
            >(e),
        },
{
    match extract_flg_and_value("-h", args) {
        Err(e) => Err(e),
        Ok((None, rest)) => {
            let none: Vec<String> = Vec::new();
            assert(none.deep_view() =~= Seq::<Seq<char>>::empty());
            Ok((none, rest))
        },
        Ok((Some(v), rest)) => Ok((header_names(v.as_str()), rest)),
    }
}

/// Where some prefix of `toks` has a malformed route, so does `toks`.
proof fn lemma_route_entries_err(toks: Seq<Seq<char>>, k: int)
    requires
        0 <= k <= toks.len(),
        route_entries(toks.subrange(0, k)) is Err,
    ensures
        route_entries(toks) == route_entries(toks.subrange(0, k)),
    decreases toks.len(),
{
    if k == toks.len() {
        assert(toks.subrange(0, k) =~= toks);
    } else {
        assert(toks.drop_last().subrange(0, k) =~= toks.subrange(0, k));
        lemma_route_entries_err(toks.drop_last(), k);
    }
}

/// The route entries of the `path:file` tokens, in order.
fn parse_routes(toks: &Vec<String>) -> (r: Result<Vec<PathAndFileName>, UsageError>)
    ensures
        match r {
            Ok(es) => route_entries(toks.deep_view()) == Ok::<
                Seq<(Seq<char>, Seq<char>)>,
                UsageError,
            >(entry_views(es@)),
            Err(e) => route_entries(toks.deep_view()) == Err::<
                Seq<(Seq<char>, Seq<char>)>,
                UsageError,
            >(e),
        },
{
    let mut entries: Vec<PathAndFileName> = Vec::new();
    let mut i: usize = 0;
    assert(toks.deep_view().subrange(0, 0) =~= Seq::<Seq<char>>::empty());
    assert(entry_views(entries@) =~= Seq::<(Seq<char>, Seq<char>)>::empty());
    while i < toks.len()
        invariant
            i <= toks.len(),
            route_entries(toks.deep_view().subrange(0, i as int)) == Ok::<
                Seq<(Seq<char>, Seq<char>)>,
                UsageError,
            >(entry_views(entries@)),
        decreases toks.len() - i,
    {
        let ghost t = toks.deep_view().subrange(0, i + 1);
        assert(t.drop_last() =~= toks.deep_view().subrange(0, i as int));
        assert(t.last() == toks[i as int]@);
        let pieces = split_on(toks[i].as_str(), ':');
        if pieces.len() != 2 {
            proof {
                assert(pieces.deep_view().len() == pieces.len());
                assert(route_entry(t.last()) is None);
                assert(route_entries(t) is Err);
                lemma_route_entries_err(toks.deep_view(), i + 1);
            }
            return Err(UsageError::MalformedRoute);
        }
        let ghost prev = entry_views(entries@);
        entries.push(PathAndFileName { path: pieces[0].clone(), file_name: pieces[1].clone() });
        assert(entry_views(entries@) =~= prev.push((pieces[0]@, pieces[1]@)));
        i = i + 1;
    }
    assert(toks.deep_view().subrange(0, toks.len() as int) =~= toks.deep_view());
    Ok(entries)
}

/// Parses the arguments (program name excluded): the port flag, then the
/// header flag, then one `path:file` entry per remaining token, of which
/// there must be at least one.
pub fn parse_args(args: &Vec<String>) -> (r: Result<Args, UsageError>)
    ensures
        match r {
            Ok(a) => parsed(args.deep_view()) == Ok::<
                (Option<Seq<char>>, Seq<Seq<char>>, Seq<(Seq<char>, Seq<char>)>),
                UsageError,
            >(
                (
                    opt_view(a.port_opt),
                    a.custom_headers.deep_view(),
                    entry_views(a.path_and_file_names@),
                ),
            ),
            Err(e) => parsed(args.deep_view()) == Err::<
                (Option<Seq<char>>, Seq<Seq<char>>, Seq<(Seq<char>, Seq<char>)>),
                UsageError,
            >(e),
        },
{
    let norm = normalize_args(args);
    let (port_opt, rest) = match extract_flg_and_value("-p", &norm) {
        Err(e) => return Err(e),
        Ok(p) => p,
    };
    let (custom_headers, toks) = match parse_custom_headers(&rest) {
        Err(e) => return Err(e),
        Ok(p) => p,
    };
    let entries = match parse_routes(&toks) {
        Err(e) => return Err(e),
        Ok(es) => es,
    };
    if entries.len() == 0 {
        return Err(UsageError::NoRoutes);
    }
    Ok(Args { path_and_file_names: entries, port_opt, custom_headers })
}

/// The address to listen on: the loopback host and the port value, `7878`
/// where none was given.
pub open spec fn host_of(port: Option<Seq<char>>) -> Seq<char> {
    match port {
        Some(p) => "127.0.0.1:"@ + p,
        None => "127.0.0.1:"@ + "7878"@,
    }
}

/// The address to listen on for the given port value.
pub fn host_address(port_opt: &Option<String>) -> (r: String)
    ensures
        r@ == host_of(opt_view(*port_opt)),
{
    let mut host = String::from_str("127.0.0.1:");
    match port_opt {
        Some(p) => host.append(p.as_str()),
        None => host.append("7878"),
    }
    host
}

/// A flag written with its value attached and the same flag written with
/// its value as the next argument normalize to the same two tokens: the
/// flag, then the value.
pub proof fn lemma_normalize_attached_or_separate(flag: Seq<char>, value: Seq<char>)
    requires
        flag == port_flag() || flag == header_flag(),
        value.len() > 0,
        !is_flag_token(value),
    ensures
        normalized(seq![flag + value]) == seq![flag, value],
        normalized(seq![flag, value]) == seq![flag, value],
{
    reveal_strlit("-p");
    reveal_strlit("-h");
    let joined_arg = flag + value;
    assert(joined_arg.subrange(0, 2) =~= flag);
    assert(joined_arg.subrange(2, joined_arg.len() as int) =~= value);
    assert(has_prefix(joined_arg, flag));
    assert(seq![joined_arg].drop_last() =~= Seq::<Seq<char>>::empty());
    assert(seq![joined_arg].last() == joined_arg);
    assert(normalized(Seq::<Seq<char>>::empty()) == Seq::<Seq<char>>::empty());
    assert(is_flag_token(joined_arg));
    assert(normalize_one(joined_arg) =~= seq![flag, value]);
    assert(normalized(seq![joined_arg]) =~= seq![flag, value]);
    assert(flag.subrange(0, 2) =~= flag);
    assert(has_prefix(flag, flag));
    let sep = seq![flag, value];
    assert(sep.drop_last() =~= seq![flag]);
    assert(seq![flag].drop_last() =~= Seq::<Seq<char>>::empty());
    assert(normalized(seq![flag]) =~= seq![flag]);
    assert(normalized(sep) =~= seq![flag, value]);
}

/// Route tokens that all parse give one entry each, in the order of the
/// tokens.
pub proof fn lemma_route_entries_in_order(toks: Seq<Seq<char>>)
    requires
        route_entries(toks) is Ok,
    ensures
        route_entries(toks)->Ok_0.len() == toks.len(),
        forall|k: int|
            0 <= k < toks.len() ==> route_entry(#[trigger] toks[k]) == Some(
                route_entries(toks)->Ok_0[k],
            ),
    decreases toks.len(),
{
    if toks.len() > 0 {
        let init = toks.drop_last();
        lemma_route_entries_in_order(init);
        assert forall|k: int| 0 <= k < toks.len() implies route_entry(#[trigger] toks[k]) == Some(
            route_entries(toks)->Ok_0[k],
        ) by {
            if k < toks.len() - 1 {
                assert(toks[k] == init[k]);
            }
        }
    }
}

} // verus!
