//! Builders that turn the filters of a resource request (comma separated
//! namespaces, kinds, names, a version and a free query) into one query text.

use vstd::prelude::*;
use crate::bql::{BqlV, BQL};
use crate::data::EntityKind;
use crate::parser::parse_spec;
use crate::resource::{DelResourcesRequest, GetResourcesRequest};
use crate::text::{
    chars_eq_str, chars_of, escape_quotes, escape_quotes_exec, join, lemma_split_len, lowercase, push_all, push_str,
    split, split_exec, string_from_chars, to_lowercase,
};

verus! {

/// The version a query selects when the request names none.
pub const DEFAULT_VERSION: &'static str = "latest";

/// A piece that asks for no filtering: the empty piece or `all`.
pub open spec fn is_wildcard(piece: Seq<char>) -> bool {
    piece.len() == 0 || piece == "all"@
}

/// A quoted, lower-cased and escaped namespace literal: `'ns'`.
pub open spec fn namespace_literal(piece: Seq<char>) -> Seq<char> {
    "'"@ + escape_quotes(lowercase(piece)) + "'"@
}

/// The filter on namespaces: `.namespace@any['a','b']`, or none when a piece
/// is empty or `all`.
pub open spec fn namespaces_filter(s: Seq<char>) -> Option<Seq<char>> {
    let parts = split(s, ',');
    if exists|i: int| 0 <= i < parts.len() && is_wildcard(#[trigger] parts[i]) {
        None
    } else {
        Some(".namespace@any["@ + join(parts.map_values(|p: Seq<char>| namespace_literal(p)), ","@)
            + "]"@)
    }
}

/// The filter on the version: the first comma separated piece, lower-cased
/// and escaped, or the default version when that piece is empty.
pub open spec fn version_filter(s: Seq<char>) -> Seq<char> {
    let first = split(s, ',')[0];
    let v = if first.len() != 0 {
        escape_quotes(lowercase(first))
    } else {
        DEFAULT_VERSION@
    };
    ".version=='"@ + v + "'"@
}

/// One kind as a field test: `.kind`.
pub open spec fn kind_test(piece: Seq<char>) -> Seq<char> {
    "."@ + lowercase(piece)
}

/// The filter on kinds: `.a||.b`, or none when a piece is empty or `all`.
pub open spec fn kinds_filter(s: Seq<char>) -> Option<Seq<char>> {
    let parts = split(s, ',');
    if exists|i: int| 0 <= i < parts.len() && is_wildcard(#[trigger] parts[i]) {
        None
    } else {
        Some(join(parts.map_values(|p: Seq<char>| kind_test(p)), "||"@))
    }
}

/// One name as an equality test: `.name=='n'`.
pub open spec fn name_test(piece: Seq<char>) -> Seq<char> {
    ".name=='"@ + lowercase(piece) + "'"@
}

/// The filter on names: `.name=='a'||.name=='b'`, or none when a piece is
/// empty.
pub open spec fn names_filter(s: Seq<char>) -> Option<Seq<char>> {
    let parts = split(s, ',');
    if exists|i: int| 0 <= i < parts.len() && (#[trigger] parts[i]).len() == 0 {
        None
    } else {
        Some(join(parts.map_values(|p: Seq<char>| name_test(p)), "||"@))
    }
}

/// The expressions that are present, each wrapped as `( e )`.
pub open spec fn wrapped_present(es: Seq<Option<Seq<char>>>) -> Seq<Seq<char>>
    decreases es.len(),
{
    if es.len() == 0 {
        Seq::empty()
    } else {
        let rest = wrapped_present(es.drop_last());
        match es.last() {
            Some(e) => rest.push("( "@ + e + " )"@),
            None => rest,
        }
    }
}

/// The conjunction of the present expressions, or none when none is present.
pub open spec fn joined(es: Seq<Option<Seq<char>>>) -> Option<Seq<char>> {
    let ws = wrapped_present(es);
    if ws.len() == 0 {
        None
    } else {
        Some(join(ws, "&&"@))
    }
}

/// Joins already built pieces with `sep`.
pub fn join_exec(pieces: &Vec<Vec<char>>, sep: &str) -> (r: Vec<char>)
    ensures
        r@ == join(pieces.deep_view(), sep@),
{
    let mut r: Vec<char> = Vec::new();
    let n = pieces.len();
    let sepv = chars_of(sep);
    for i in 0..n
        invariant
            n == pieces@.len(),
            sepv@ == sep@,
            r@ == join(pieces.deep_view().take(i as int), sep@),
    {
        let ghost pv = pieces.deep_view();
        assert(pv.take(i + 1).drop_last() =~= pv.take(i as int));
        assert(pv.take(i + 1).last() == pieces@[i as int]@);
        if i > 0 {
            push_all(&mut r, &sepv);
        } else {
            assert(r@ =~= Seq::<char>::empty());
        }
        push_all(&mut r, &pieces[i]);
    }
    assert(pieces.deep_view().take(n as int) =~= pieces.deep_view());
    r
}

/// Lower-cases the characters of a piece.
fn lower_chars(piece: &Vec<char>) -> (r: Vec<char>)
    ensures
        r@ == lowercase(piece@),
{
    let s = string_from_chars(piece);
    let l = to_lowercase(s.as_str());
    chars_of(l.as_str())
}

/// Whether a piece is empty or `all`.
fn is_wildcard_exec(piece: &Vec<char>) -> (r: bool)
    ensures
        r == is_wildcard(piece@),
{
    piece.len() == 0 || chars_eq_str(piece, "all")
}

/// The namespace filter of a request: `.namespace@any['a','b']`; none when a
/// namespace is empty or `all`.
pub fn bql_from_namespaces(s: &str) -> (r: Option<String>)
    ensures
        r.deep_view() == namespaces_filter(s@),
{
    let cs = chars_of(s);
    let parts = split_exec(&cs, ',');
    let ghost ps = parts.deep_view();
    let mut lits: Vec<Vec<char>> = Vec::new();
    let n = parts.len();
    for i in 0..n
        invariant
            n == parts@.len(),
            ps == parts.deep_view(),
            ps == split(s@, ','),
            lits@.len() == i,
            forall|j: int| 0 <= j < i ==> !is_wildcard(#[trigger] ps[j]),
            forall|j: int| 0 <= j < i ==> (#[trigger] lits@[j])@ == namespace_literal(ps[j]),
    {
        assert(parts@[i as int]@ == ps[i as int]);
        if is_wildcard_exec(&parts[i]) {
            return None;
        }
        let lower = lower_chars(&parts[i]);
        let esc = escape_quotes_exec(&lower);
        let mut lit: Vec<char> = Vec::new();
        push_str(&mut lit, "'");
        push_all(&mut lit, &esc);
        push_str(&mut lit, "'");
        lits.push(lit);
    }
    let ghost want = ps.map_values(|p: Seq<char>| namespace_literal(p));
    assert(lits.deep_view() =~= want) by {
        assert forall|j: int| 0 <= j < n implies #[trigger] lits.deep_view()[j] == want[j] by {
            assert(lits@[j]@ == namespace_literal(ps[j]));
        }
    }
    let body = join_exec(&lits, ",");
    let mut out: Vec<char> = Vec::new();
    push_str(&mut out, ".namespace@any[");
    push_all(&mut out, &body);
    push_str(&mut out, "]");
    Some(string_from_chars(&out))
}

/// The version filter of a request: `.version=='v'`, with the default
/// version when the first piece is empty.
pub fn bql_from_version(s: &str) -> (r: Option<String>)
    ensures
        r.deep_view() == Some(version_filter(s@)),
{
    let cs = chars_of(s);
    let parts = split_exec(&cs, ',');
    proof {
        lemma_split_len(s@, ',');
    }
    assert(parts@[0]@ == split(s@, ',')[0]);
    let v = if parts[0].len() != 0 {
        let lower = lower_chars(&parts[0]);
        escape_quotes_exec(&lower)
    } else {
        chars_of(DEFAULT_VERSION)
    };
    let mut out: Vec<char> = Vec::new();
    push_str(&mut out, ".version=='");
    push_all(&mut out, &v);
    push_str(&mut out, "'");
    Some(string_from_chars(&out))
}

/// The kind filter of a request: `.a||.b`; none when a kind is empty or
/// `all`.
pub fn bql_from_kinds(s: &str) -> (r: Option<String>)
    ensures
        r.deep_view() == kinds_filter(s@),
{
    let cs = chars_of(s);
    let parts = split_exec(&cs, ',');
    let ghost ps = parts.deep_view();
    let mut tests: Vec<Vec<char>> = Vec::new();
    let n = parts.len();
    for i in 0..n
        invariant
            n == parts@.len(),
            ps == parts.deep_view(),
            ps == split(s@, ','),
            tests@.len() == i,
            forall|j: int| 0 <= j < i ==> !is_wildcard(#[trigger] ps[j]),
            forall|j: int| 0 <= j < i ==> (#[trigger] tests@[j])@ == kind_test(ps[j]),
    {
        assert(parts@[i as int]@ == ps[i as int]);
        if is_wildcard_exec(&parts[i]) {
            return None;
        }
        let lower = lower_chars(&parts[i]);
        let mut t: Vec<char> = Vec::new();
        push_str(&mut t, ".");
        push_all(&mut t, &lower);
        tests.push(t);
    }
    let ghost want = ps.map_values(|p: Seq<char>| kind_test(p));
    assert(tests.deep_view() =~= want) by {
        assert forall|j: int| 0 <= j < n implies #[trigger] tests.deep_view()[j] == want[j] by {
            assert(tests@[j]@ == kind_test(ps[j]));
        }
    }
    let body = join_exec(&tests, "||");
    Some(string_from_chars(&body))
}

/// The name filter of a request: `.name=='a'||.name=='b'`; none when a name
/// is empty.
pub fn bql_from_names(s: &str) -> (r: Option<String>)
    ensures
        r.deep_view() == names_filter(s@),
{
    let cs = chars_of(s);
    let parts = split_exec(&cs, ',');
    let ghost ps = parts.deep_view();
    let mut tests: Vec<Vec<char>> = Vec::new();
    let n = parts.len();
    for i in 0..n
        invariant
            n == parts@.len(),
            ps == parts.deep_view(),
            ps == split(s@, ','),
            tests@.len() == i,
            forall|j: int| 0 <= j < i ==> (#[trigger] ps[j]).len() != 0,
            forall|j: int| 0 <= j < i ==> (#[trigger] tests@[j])@ == name_test(ps[j]),
    {
        assert(parts@[i as int]@ == ps[i as int]);
        if parts[i].len() == 0 {
            return None;
        }
        let lower = lower_chars(&parts[i]);
        let mut t: Vec<char> = Vec::new();
        push_str(&mut t, ".name=='");
        push_all(&mut t, &lower);
        push_str(&mut t, "'");
        tests.push(t);
    }
    let ghost want = ps.map_values(|p: Seq<char>| name_test(p));
    assert(tests.deep_view() =~= want) by {
        assert forall|j: int| 0 <= j < n implies #[trigger] tests.deep_view()[j] == want[j] by {
            assert(tests@[j]@ == name_test(ps[j]));
        }
    }
    let body = join_exec(&tests, "||");
    Some(string_from_chars(&body))
}

/// A free query taken as it is; none when it is empty.
pub fn bql_from_str(s: &str) -> (r: Option<String>)
    ensures
        r.deep_view() == (if s@.len() == 0 { None } else { Some(s@) }),
{
    let cs = chars_of(s);
    if cs.len() == 0 {
        None
    } else {
        Some(string_from_chars(&cs))
    }
}

/// The conjunction `( a )&&( b )&&...` of the expressions that are present;
/// a single one is only wrapped; none when none is present.
pub fn bql_join(expressions: Vec<Option<String>>) -> (r: Option<String>)
    ensures
        r.deep_view() == joined(expressions.deep_view()),
{
    let mut ws: Vec<Vec<char>> = Vec::new();
    let n = expressions.len();
    for i in 0..n
        invariant
            n == expressions@.len(),
            ws.deep_view() == wrapped_present(expressions.deep_view().take(i as int)),
    {
        let ghost ev = expressions.deep_view();
        assert(ev.take(i + 1).drop_last() =~= ev.take(i as int));
        assert(ev.take(i + 1).last() == expressions@[i as int].deep_view());
        match &expressions[i] {
            Some(e) => {
                let ghost before = ws.deep_view();
                let mut w: Vec<char> = Vec::new();
                push_str(&mut w, "( ");
                let ec = chars_of(e.as_str());
                push_all(&mut w, &ec);
                push_str(&mut w, " )");
                let ghost wv = w@;
                ws.push(w);
                assert(ws.deep_view() =~= before.push(wv)) by {
                    assert forall|j: int| 0 <= j < ws@.len() implies #[trigger] ws.deep_view()[j]
                        == before.push(wv)[j] by {
                    }
                }
            },
            None => {},
        }
    }
    assert(expressions.deep_view().take(n as int) =~= expressions.deep_view());
    if ws.len() == 0 {
        None
    } else {
        let body = join_exec(&ws, "&&");
        Some(string_from_chars(&body))
    }
}

/// The query text built from the filters of a resource request.
pub open spec fn request_query_text(
    version: Seq<char>,
    namespaces: Seq<char>,
    kinds: Seq<char>,
    names: Seq<char>,
    bql: Seq<char>,
) -> Option<Seq<char>> {
    joined(
        seq![
            namespaces_filter(namespaces),
            Some(version_filter(version)),
            kinds_filter(kinds),
            names_filter(names),
            if bql.len() == 0 { None } else { Some(bql) },
        ],
    )
}

/// A present expression makes the conjunction present.
pub proof fn lemma_wrapped_present_nonempty(es: Seq<Option<Seq<char>>>, i: int)
    requires
        0 <= i < es.len(),
        es[i] is Some,
    ensures
        wrapped_present(es).len() > 0,
    decreases es.len(),
{
    if i < es.len() - 1 {
        lemma_wrapped_present_nonempty(es.drop_last(), i);
        if es.last() is Some {
        }
    }
}

/// The first expression, where present, is wrapped first.
proof fn lemma_wrapped_present_first(es: Seq<Option<Seq<char>>>)
    requires
        es.len() > 0,
        es[0] is Some,
    ensures
        wrapped_present(es).len() > 0,
        wrapped_present(es)[0] == "( "@ + es[0]->0 + " )"@,
    decreases es.len(),
{
    let rest = wrapped_present(es.drop_last());
    if es.len() > 1 {
        assert(es.drop_last()[0] == es[0]);
        lemma_wrapped_present_first(es.drop_last());
        match es.last() {
            Some(e) => assert(rest.push("( "@ + e + " )"@)[0] == rest[0]),
            None => {},
        }
    } else {
        assert(es.drop_last() =~= Seq::<Option<Seq<char>>>::empty());
        assert(rest.len() == 0);
        assert(es.last() == es[0]);
        assert(wrapped_present(es) == rest.push("( "@ + es[0]->0 + " )"@));
    }
}

/// Where the first two expressions are present, so are two wrapped ones.
proof fn lemma_wrapped_present_two(es: Seq<Option<Seq<char>>>)
    requires
        es.len() >= 2,
        es[0] is Some,
        es[1] is Some,
    ensures
        wrapped_present(es).len() >= 2,
    decreases es.len(),
{
    if es.len() > 2 {
        assert(es.drop_last()[0] == es[0] && es.drop_last()[1] == es[1]);
        lemma_wrapped_present_two(es.drop_last());
    } else {
        assert(es.drop_last()[0] == es[0]);
        lemma_wrapped_present_first(es.drop_last());
    }
}

/// A prefix stays a prefix when something is appended.
proof fn lemma_prefix_append(p: Seq<char>, a: Seq<char>, b: Seq<char>)
    requires
        p.is_prefix_of(a),
    ensures
        p.is_prefix_of(a + b),
{
    assert((a + b).subrange(0, p.len() as int) =~= a.subrange(0, p.len() as int));
}

/// Joining two pieces or more begins with the first and the separator.
proof fn lemma_join_begins(ws: Seq<Seq<char>>, sep: Seq<char>)
    requires
        ws.len() >= 2,
    ensures
        (ws[0] + sep).is_prefix_of(join(ws, sep)),
    decreases ws.len(),
{
    if ws.len() == 2 {
        assert(join(ws.drop_last(), sep) == ws[0]);
        assert((ws[0] + sep + ws[1]).subrange(0, (ws[0] + sep).len() as int) =~= ws[0] + sep);
    } else {
        assert(ws.drop_last()[0] == ws[0]);
        lemma_join_begins(ws.drop_last(), sep);
        lemma_prefix_append(ws[0] + sep, join(ws.drop_last(), sep), sep + ws.last());
        assert(join(ws.drop_last(), sep) + (sep + ws.last()) =~= join(ws.drop_last(), sep) + sep + ws.last());
    }
}

/// A request that names namespaces, none of them a wildcard, keeps to
/// them: its query is present and begins with the namespace test
/// `( .namespace@any[...] )`, joined with `&&` to the rest.
pub proof fn lemma_namespaces_kept(
    version: Seq<char>,
    namespaces: Seq<char>,
    kinds: Seq<char>,
    names: Seq<char>,
    bql: Seq<char>,
)
    requires
        forall|i: int| 0 <= i < split(namespaces, ',').len() ==> !is_wildcard(#[trigger] split(namespaces, ',')[i]),
    ensures
        request_query_text(version, namespaces, kinds, names, bql) matches Some(t) && "( .namespace@any["@.is_prefix_of(t)
            && ("( "@ + namespaces_filter(namespaces)->0 + " )"@ + "&&"@).is_prefix_of(t),
{
    let es = seq![
        namespaces_filter(namespaces),
        Some(version_filter(version)),
        kinds_filter(kinds),
        names_filter(names),
        if bql.len() == 0 { None } else { Some(bql) },
    ];
    let nf = namespaces_filter(namespaces)->0;
    assert(namespaces_filter(namespaces) is Some);
    lemma_wrapped_present_two(es);
    lemma_wrapped_present_first(es);
    let ws = wrapped_present(es);
    lemma_join_begins(ws, "&&"@);
    let t = join(ws, "&&"@);
    assert(request_query_text(version, namespaces, kinds, names, bql) == Some(t));
    let head = "( "@ + nf + " )"@ + "&&"@;
    assert(ws[0] + "&&"@ == head);
    reveal_strlit("( ");
    reveal_strlit(".namespace@any[");
    reveal_strlit("( .namespace@any[");
    let lit = "( .namespace@any["@;
    assert(lit =~= "( "@ + ".namespace@any["@);
    assert(head.subrange(0, lit.len() as int) =~= lit);
    assert(t.subrange(0, lit.len() as int) =~= head.subrange(0, lit.len() as int));
}

/// The text `p` occurs in `t`.
pub open spec fn occurs_in(p: Seq<char>, t: Seq<char>) -> bool {
    exists|i: int| 0 <= i && i + p.len() <= t.len() && #[trigger] t.subrange(i, i + p.len()) == p
}

/// A text occurs in what is built around it.
proof fn lemma_occurs_around(p: Seq<char>, a: Seq<char>, t: Seq<char>, b: Seq<char>)
    requires
        occurs_in(p, t),
    ensures
        occurs_in(p, a + t + b),
{
    let i = choose|i: int| 0 <= i && i + p.len() <= t.len() && #[trigger] t.subrange(i, i + p.len()) == p;
    let j = a.len() + i;
    assert((a + t + b).subrange(j, j + p.len()) =~= t.subrange(i, i + p.len()));
}

/// Each piece occurs in their join.
proof fn lemma_join_contains(ws: Seq<Seq<char>>, sep: Seq<char>, j: int)
    requires
        0 <= j < ws.len(),
    ensures
        occurs_in(ws[j], join(ws, sep)),
    decreases ws.len(),
{
    let t = join(ws, sep);
    if ws.len() == 1 {
        assert(t == ws[0]);
        assert(t.subrange(0int, 0int + ws[j].len()) =~= ws[j]);
    } else {
        let front = join(ws.drop_last(), sep);
        assert(t == front + sep + ws.last());
        if j == ws.len() - 1 {
            let k: int = (front.len() + sep.len()) as int;
            assert(t.subrange(k, k + ws[j].len()) =~= ws[j]);
        } else {
            assert(ws.drop_last()[j] == ws[j]);
            lemma_join_contains(ws.drop_last(), sep, j);
            lemma_occurs_around(ws[j], Seq::empty(), front, sep + ws.last());
            assert(Seq::<char>::empty() + front + (sep + ws.last()) =~= t);
        }
    }
}

/// Each present expression is among the wrapped ones.
proof fn lemma_wrapped_contains(es: Seq<Option<Seq<char>>>, i: int)
    requires
        0 <= i < es.len(),
        es[i] is Some,
    ensures
        wrapped_present(es).contains("( "@ + es[i]->0 + " )"@),
    decreases es.len(),
{
    let rest = wrapped_present(es.drop_last());
    let w = "( "@ + es[i]->0 + " )"@;
    if i == es.len() - 1 {
        assert(es.last() == es[i]);
        assert(wrapped_present(es) == rest.push(w));
        assert(wrapped_present(es)[rest.len() as int] == w);
    } else {
        assert(es.drop_last()[i] == es[i]);
        lemma_wrapped_contains(es.drop_last(), i);
        let k = choose|k: int| 0 <= k < rest.len() && rest[k] == w;
        match es.last() {
            Some(e) => assert(rest.push("( "@ + e + " )"@)[k] == w),
            None => {},
        }
    }
}

/// Every filter that a request sets is part of its query, as `( filter )`
/// joined to the others with `&&`: the namespaces where they are not a
/// wildcard, the version (always, the default one where none is given), the
/// kinds, the names, and the query text of the request where it has one.
pub proof fn lemma_filters_kept(
    version: Seq<char>,
    namespaces: Seq<char>,
    kinds: Seq<char>,
    names: Seq<char>,
    bql: Seq<char>,
)
    ensures
        request_query_text(version, namespaces, kinds, names, bql) matches Some(t) && occurs_in(
            "( "@ + version_filter(version) + " )"@,
            t,
        ) && (namespaces_filter(namespaces) matches Some(f) ==> occurs_in("( "@ + f + " )"@, t)) && (kinds_filter(
            kinds,
        ) matches Some(f) ==> occurs_in("( "@ + f + " )"@, t)) && (names_filter(names) matches Some(f) ==> occurs_in(
            "( "@ + f + " )"@,
            t,
        )) && (bql.len() > 0 ==> occurs_in("( "@ + bql + " )"@, t)),
{
    let es = seq![
        namespaces_filter(namespaces),
        Some(version_filter(version)),
        kinds_filter(kinds),
        names_filter(names),
        if bql.len() == 0 { None } else { Some(bql) },
    ];
    let ws = wrapped_present(es);
    lemma_wrapped_present_nonempty(es, 1);
    let t = join(ws, "&&"@);
    assert(request_query_text(version, namespaces, kinds, names, bql) == Some(t));
    assert forall|i: int| 0 <= i < 5 && es[i] is Some implies occurs_in("( "@ + es[i]->0 + " )"@, t) by {
        lemma_wrapped_contains(es, i);
        let k = choose|k: int| 0 <= k < ws.len() && ws[k] == "( "@ + es[i]->0 + " )"@;
        lemma_join_contains(ws, "&&"@, k);
    }
    assert(es[1] is Some);
    if namespaces_filter(namespaces) is Some {
        assert(es[0] is Some);
    }
    if kinds_filter(kinds) is Some {
        assert(es[2] is Some);
    }
    if names_filter(names) is Some {
        assert(es[3] is Some);
    }
    if bql.len() > 0 {
        assert(es[4] is Some);
    }
}

/// A query: the kind of entity it selects and its syntax tree.
#[derive(Debug, PartialEq)]
pub struct Query {
    pub kind: EntityKind,
    pub ast: BQL,
}

/// A query from its parts.
pub fn new(kind: EntityKind, ast: BQL) -> (q: Query)
    ensures
        q.kind == kind,
        q.ast == ast,
{
    Query::new(kind, ast)
}

impl Query {
    /// A query from its parts.
    pub fn new(kind: EntityKind, ast: BQL) -> (q: Query)
        ensures
            q.kind == kind,
            q.ast == ast,
    {
        Query { kind, ast }
    }

    /// The query of resources that a request's filters describe; the error
    /// of the query language where the text built from them does not parse.
    fn from_filters(version: &str, namespaces: &str, kinds: &str, names: &str, bql: &str) -> (r: Result<Query, String>)
        ensures
            request_query_text(version@, namespaces@, kinds@, names@, bql@) is Some,
            match r {
                Ok(q) => q.kind == EntityKind::Resource && parse_spec(
                    request_query_text(version@, namespaces@, kinds@, names@, bql@)->0,
                ) == Ok::<BqlV, ()>(q.ast@),
                Err(_) => parse_spec(request_query_text(version@, namespaces@, kinds@, names@, bql@)->0) is Err,
            },
    {
        let mut es: Vec<Option<String>> = Vec::new();
        es.push(bql_from_namespaces(namespaces));
        es.push(bql_from_version(version));
        es.push(bql_from_kinds(kinds));
        es.push(bql_from_names(names));
        es.push(bql_from_str(bql));
        let ghost target = seq![
            namespaces_filter(namespaces@),
            Some(version_filter(version@)),
            kinds_filter(kinds@),
            names_filter(names@),
            if bql@.len() == 0 { None } else { Some(bql@) },
        ];
        assert(es.deep_view() =~= target) by {
            assert forall|j: int| 0 <= j < 5 implies #[trigger] es.deep_view()[j] == target[j] by {
                assert(es.deep_view()[j] == es@[j].deep_view());
            }
        }
        proof {
            lemma_wrapped_present_nonempty(target, 1);
        }
        match bql_join(es) {
            Some(text) => match crate::bql::from_str(text.as_str()) {
                Ok(ast) => Ok(Query { kind: EntityKind::Resource, ast }),
                Err(e) => Err(e),
            },
            None => {
                assert(false);
                Err(String::new())
            },
        }
    }

    /// The query of resources that a request for resources describes (see
    /// [`request_query_text`]); the error of the query language where that
    /// text does not parse.
    pub fn from_get_resources_request(request: &GetResourcesRequest) -> (r: Result<Query, String>)
        ensures
            request_query_text(request.version@, request.namespaces@, request.kinds@, request.names@, request.bql@) is Some,
            match r {
                Ok(q) => q.kind == EntityKind::Resource && parse_spec(
                    request_query_text(request.version@, request.namespaces@, request.kinds@, request.names@, request.bql@)->0,
                ) == Ok::<BqlV, ()>(q.ast@),
                Err(_) => parse_spec(
                    request_query_text(request.version@, request.namespaces@, request.kinds@, request.names@, request.bql@)->0,
                ) is Err,
            },
    {
        Query::from_filters(
            request.version.as_str(),
            request.namespaces.as_str(),
            request.kinds.as_str(),
            request.names.as_str(),
            request.bql.as_str(),
        )
    }

    /// The query of resources that a request to delete resources describes
    /// (see [`request_query_text`]); the error of the query language where
    /// that text does not parse.
    pub fn from_del_resources_request(request: &DelResourcesRequest) -> (r: Result<Query, String>)
        ensures
            request_query_text(request.version@, request.namespaces@, request.kinds@, request.names@, request.bql@) is Some,
            match r {
                Ok(q) => q.kind == EntityKind::Resource && parse_spec(
                    request_query_text(request.version@, request.namespaces@, request.kinds@, request.names@, request.bql@)->0,
                ) == Ok::<BqlV, ()>(q.ast@),
                Err(_) => parse_spec(
                    request_query_text(request.version@, request.namespaces@, request.kinds@, request.names@, request.bql@)->0,
                ) is Err,
            },
    {
        Query::from_filters(
            request.version.as_str(),
            request.namespaces.as_str(),
            request.kinds.as_str(),
            request.names.as_str(),
            request.bql.as_str(),
        )
    }
}

} // verus!
