//! Properties of token replacement as a whole, proved from the contracts of
//! the scan, the engines and the splice.
use vstd::prelude::*;
use crate::grammar::{
    gap_start, is_path_char, lemma_tokens_in_order, spans_in_order, is_query_char, is_token, spliced, spliced_upto, token_starts_at,
    tokens_from, tokens_of, QueryLanguage, lemma_token_unique,
};
use crate::query::{
    has_prefixed_name, json_parses, jsonpath_compiles, jsonpath_matches, jsonpath_supported,
    markup_parses, outcome_agrees, value_fixed, xpath_evaluates, xpath_string, xpath_value_fixed,
    ReplaceError,
};
use crate::replacer::{
    lemma_error_persists, lookup, replace_agrees, resolution, resolve_upto, span_query, span_resource,
    values_agree, Resource,
};

verus! {

/// The text of a single token, `{path#query}`.
pub open spec fn token_text(path: Seq<char>, query: Seq<char>) -> Seq<char> {
    seq!['{'] + path + seq!['#'] + query + seq!['}']
}

/// `path` and `query` can form a token of `lang`.
pub open spec fn well_formed_segments(lang: QueryLanguage, path: Seq<char>, query: Seq<char>) -> bool {
    &&& path.len() > 0
    &&& query.len() > 0
    &&& forall|k: int| 0 <= k < path.len() ==> #[trigger] is_path_char(path[k])
    &&& forall|k: int| 0 <= k < query.len() ==> #[trigger] is_query_char(lang, query[k])
}

/// A text that is one token resolves to what that token's own resolution
/// gives.
pub proof fn lemma_single_token(
    lang: QueryLanguage,
    path: Seq<char>,
    query: Seq<char>,
    table: Seq<Resource>,
    got: Result<Seq<char>, ReplaceError>,
)
    requires
        well_formed_segments(lang, path, query),
        replace_agrees(lang, token_text(path, query), table, got),
    ensures
        outcome_agrees(got, resolution(lang, table, path, query), value_fixed(lang, query)),
{
    let s = token_text(path, query);
    let h: int = path.len() as int + 1;
    let c: int = s.len() as int - 1;
    assert(s[0] == '{');
    assert(s[h] == '#');
    assert(s[c] == '}');
    assert forall|k: int| 0 < k < h implies #[trigger] is_path_char(s[k]) by {
        assert(s[k] == path[k - 1]);
    }
    assert forall|k: int| h < k < c implies #[trigger] is_query_char(lang, s[k]) by {
        assert(s[k] == query[k - h - 1]);
    }
    assert(is_token(s, lang, 0, h, c));
    assert(token_starts_at(s, lang, 0));
    let (h2, c2) = choose|h2: int, c2: int| is_token(s, lang, 0, h2, c2);
    lemma_token_unique(s, lang, 0, h, c, h2, c2);
    assert(tokens_from(s, lang, c + 1) == Seq::<(int, int, int)>::empty());
    let spans = tokens_of(s, lang);
    assert(spans =~= seq![(0, h, c)]);
    assert(span_resource(s, spans[0]) =~= path);
    assert(span_query(s, spans[0]) =~= query);
    assert(resolve_upto(lang, s, table, spans, 0) == Ok::<Seq<Seq<char>>, ReplaceError>(seq![]));
    match resolution(lang, table, path, query) {
        Ok(v) => {
            let expected = seq![v];
            assert(resolve_upto(lang, s, table, spans, 1) == Ok::<Seq<Seq<char>>, ReplaceError>(seq![].push(v)));
            assert(seq![].push(v) =~= expected);
            let vs = choose|vs: Seq<Seq<char>>|
                #[trigger] values_agree(lang, s, spans, expected, vs) && got == Ok::<Seq<char>, ReplaceError>(
                    spliced(s, spans, vs),
                );
            assert(spliced_upto(s, spans, vs, 0) =~= seq![]);
            assert(s.subrange(0, 0) =~= seq![]);
            assert(gap_start(spans, 1) == s.len());
            assert(spliced(s, spans, vs) =~= vs[0]);
        },
        Err(e) => {},
    }
}

/// A markup token yields the string value of what its XPath query selects
/// in the resource it names: for a node-set, the string value of the first
/// node in document order.
pub proof fn lemma_xpath_token_value(
    path: Seq<char>,
    query: Seq<char>,
    table: Seq<Resource>,
    doc: Seq<char>,
    got: Result<Seq<char>, ReplaceError>,
)
    requires
        well_formed_segments(QueryLanguage::XPath, path, query),
        lookup(table, path) == Some(doc),
        markup_parses(doc),
        !has_prefixed_name(query),
        xpath_evaluates(doc, query),
        xpath_value_fixed(query),
        replace_agrees(QueryLanguage::XPath, token_text(path, query), table, got),
    ensures
        got == Ok::<Seq<char>, ReplaceError>(xpath_string(doc, query)),
{
    lemma_single_token(QueryLanguage::XPath, path, query, table, got);
}

/// A data token yields the first value that its JSONPath query selects in
/// the resource it names, where that value is a string; later matches play
/// no part.
pub proof fn lemma_jsonpath_token_value(
    path: Seq<char>,
    query: Seq<char>,
    table: Seq<Resource>,
    doc: Seq<char>,
    value: Seq<char>,
    got: Result<Seq<char>, ReplaceError>,
)
    requires
        well_formed_segments(QueryLanguage::JsonPath, path, query),
        lookup(table, path) == Some(doc),
        json_parses(doc),
        jsonpath_supported(query),
        jsonpath_compiles(query),
        jsonpath_matches(doc, query).len() > 0,
        jsonpath_matches(doc, query)[0] == Some(value),
        replace_agrees(QueryLanguage::JsonPath, token_text(path, query), table, got),
    ensures
        got == Ok::<Seq<char>, ReplaceError>(value),
{
    lemma_single_token(QueryLanguage::JsonPath, path, query, table, got);
}

/// The value of the `k`-th token of `s`, where it resolves.
pub open spec fn token_value(lang: QueryLanguage, s: Seq<char>, table: Seq<Resource>, k: int) -> Seq<char> {
    let spans = tokens_of(s, lang);
    resolution(lang, table, span_resource(s, spans[k]), span_query(s, spans[k]))->Ok_0
}

proof fn lemma_resolve_upto_ok(lang: QueryLanguage, s: Seq<char>, table: Seq<Resource>, k: int)
    requires
        0 <= k <= tokens_of(s, lang).len(),
        forall|i: int|
            0 <= i < k ==> (#[trigger] resolution(
                lang,
                table,
                span_resource(s, tokens_of(s, lang)[i]),
                span_query(s, tokens_of(s, lang)[i]),
            )) is Ok,
    ensures
        resolve_upto(lang, s, table, tokens_of(s, lang), k) == Ok::<Seq<Seq<char>>, ReplaceError>(
            Seq::new(k as nat, |i: int| token_value(lang, s, table, i)),
        ),
    decreases k,
{
    let spans = tokens_of(s, lang);
    if k > 0 {
        lemma_resolve_upto_ok(lang, s, table, k - 1);
        assert(resolution(lang, table, span_resource(s, spans[k - 1]), span_query(s, spans[k - 1])) is Ok);
        assert(Seq::new((k - 1) as nat, |i: int| token_value(lang, s, table, i)).push(
            token_value(lang, s, table, k - 1),
        ) =~= Seq::new(k as nat, |i: int| token_value(lang, s, table, i)));
    } else {
        assert(Seq::new(0, |i: int| token_value(lang, s, table, i)) =~= seq![]);
    }
}

/// Where every token resolves, each is replaced in place by a value of its
/// own resolution, whatever the other tokens are, even where they name the
/// same resource; where every query's value is fixed, that is the whole
/// result.
pub proof fn lemma_tokens_resolve_independently(
    lang: QueryLanguage,
    s: Seq<char>,
    table: Seq<Resource>,
    got: Result<Seq<char>, ReplaceError>,
)
    requires
        forall|i: int|
            0 <= i < tokens_of(s, lang).len() ==> (#[trigger] resolution(
                lang,
                table,
                span_resource(s, tokens_of(s, lang)[i]),
                span_query(s, tokens_of(s, lang)[i]),
            )) is Ok,
        replace_agrees(lang, s, table, got),
    ensures
        got is Ok,
        (forall|i: int|
            0 <= i < tokens_of(s, lang).len() ==> #[trigger] value_fixed(
                lang,
                span_query(s, tokens_of(s, lang)[i]),
            )) ==> got == Ok::<Seq<char>, ReplaceError>(
            spliced(
                s,
                tokens_of(s, lang),
                Seq::new(tokens_of(s, lang).len(), |i: int| token_value(lang, s, table, i)),
            ),
        ),
{
    let spans = tokens_of(s, lang);
    let n = spans.len();
    lemma_resolve_upto_ok(lang, s, table, n as int);
    let expected = Seq::new(n, |i: int| token_value(lang, s, table, i));
    let vs = choose|vs: Seq<Seq<char>>|
        #[trigger] values_agree(lang, s, spans, expected, vs) && got == Ok::<Seq<char>, ReplaceError>(
            spliced(s, spans, vs),
        );
    if forall|i: int| 0 <= i < n ==> #[trigger] value_fixed(lang, span_query(s, spans[i])) {
        assert(vs =~= expected);
    }
}

/// A token whose resource is not at hand, after tokens that all resolve,
/// makes the whole replacement fail with `ResourceRead`.
pub proof fn lemma_missing_resource_fails(
    lang: QueryLanguage,
    s: Seq<char>,
    table: Seq<Resource>,
    k: int,
    got: Result<Seq<char>, ReplaceError>,
)
    requires
        0 <= k < tokens_of(s, lang).len(),
        forall|i: int|
            0 <= i < k ==> (#[trigger] resolution(
                lang,
                table,
                span_resource(s, tokens_of(s, lang)[i]),
                span_query(s, tokens_of(s, lang)[i]),
            )) is Ok,
        lookup(table, span_resource(s, tokens_of(s, lang)[k])) is None,
        replace_agrees(lang, s, table, got),
    ensures
        got == Err::<Seq<char>, ReplaceError>(ReplaceError::ResourceRead),
{
    let spans = tokens_of(s, lang);
    lemma_resolve_upto_ok(lang, s, table, k);
    assert(resolve_upto(lang, s, table, spans, k + 1) == Err::<Seq<Seq<char>>, ReplaceError>(ReplaceError::ResourceRead));
    lemma_error_persists(lang, s, table, spans, k + 1, spans.len() as int);
}


/// Spans moved `d` places to the right.
pub open spec fn shifted(spans: Seq<(int, int, int)>, d: int) -> Seq<(int, int, int)> {
    spans.map_values(|t: (int, int, int)| (t.0 + d, t.1 + d, t.2 + d))
}

/// No token of `x + y` starts in `x` and ends in `y`.
pub open spec fn no_token_across(x: Seq<char>, y: Seq<char>, lang: QueryLanguage) -> bool {
    forall|i: int, h: int, c: int|
        #[trigger] is_token(x + y, lang, i, h, c) && i < x.len() ==> c < x.len()
}

proof fn lemma_token_in_tail(x: Seq<char>, y: Seq<char>, lang: QueryLanguage, i: int, h: int, c: int)
    requires
        i >= x.len(),
    ensures
        is_token(x + y, lang, i, h, c) <==> is_token(y, lang, i - x.len(), h - x.len(), c - x.len()),
{
    let s = x + y;
    let d = x.len() as int;
    if is_token(s, lang, i, h, c) {
        assert forall|k: int| i - d < k < h - d implies #[trigger] is_path_char(y[k]) by {
            assert(y[k] == s[k + d]);
        }
        assert forall|k: int| h - d < k < c - d implies #[trigger] is_query_char(lang, y[k]) by {
            assert(y[k] == s[k + d]);
        }
    }
    if is_token(y, lang, i - d, h - d, c - d) {
        assert forall|k: int| i < k < h implies #[trigger] is_path_char(s[k]) by {
            assert(s[k] == y[k - d]);
        }
        assert forall|k: int| h < k < c implies #[trigger] is_query_char(lang, s[k]) by {
            assert(s[k] == y[k - d]);
        }
    }
}

proof fn lemma_token_in_head(x: Seq<char>, y: Seq<char>, lang: QueryLanguage, i: int, h: int, c: int)
    requires
        c < x.len(),
    ensures
        is_token(x + y, lang, i, h, c) <==> is_token(x, lang, i, h, c),
{
    let s = x + y;
    if is_token(s, lang, i, h, c) {
        assert forall|k: int| i < k < h implies #[trigger] is_path_char(x[k]) by {
            assert(x[k] == s[k]);
        }
        assert forall|k: int| h < k < c implies #[trigger] is_query_char(lang, x[k]) by {
            assert(x[k] == s[k]);
        }
    }
    if is_token(x, lang, i, h, c) {
        assert forall|k: int| i < k < h implies #[trigger] is_path_char(s[k]) by {
            assert(s[k] == x[k]);
        }
        assert forall|k: int| h < k < c implies #[trigger] is_query_char(lang, s[k]) by {
            assert(s[k] == x[k]);
        }
    }
}

proof fn lemma_tokens_of_tail(x: Seq<char>, y: Seq<char>, lang: QueryLanguage, p: int)
    requires
        p >= x.len(),
    ensures
        tokens_from(x + y, lang, p) == shifted(tokens_from(y, lang, p - x.len()), x.len() as int),
    decreases (x + y).len() - p,
{
    let s = x + y;
    let d = x.len() as int;
    if p >= s.len() {
        assert(shifted(tokens_from(y, lang, p - d), d) =~= seq![]);
    } else if token_starts_at(s, lang, p) {
        let (h, c) = choose|h: int, c: int| is_token(s, lang, p, h, c);
        lemma_token_in_tail(x, y, lang, p, h, c);
        assert(token_starts_at(y, lang, p - d));
        let q = p - d;
        let (h2, c2) = choose|h2: int, c2: int| #[trigger] is_token(y, lang, q, h2, c2);
        lemma_token_unique(y, lang, q, h - d, c - d, h2, c2);
        lemma_tokens_of_tail(x, y, lang, c + 1);
        assert(shifted(tokens_from(y, lang, p - d), d) =~= seq![(p, h, c)] + shifted(tokens_from(y, lang, c + 1 - d), d));
    } else {
        assert(!token_starts_at(y, lang, p - d)) by {
            let q = p - d;
            if token_starts_at(y, lang, q) {
                let (h2, c2) = choose|h2: int, c2: int| #[trigger] is_token(y, lang, q, h2, c2);
                lemma_token_in_tail(x, y, lang, p, h2 + d, c2 + d);
            }
        }
        lemma_tokens_of_tail(x, y, lang, p + 1);
    }
}

proof fn lemma_tokens_of_head(x: Seq<char>, y: Seq<char>, lang: QueryLanguage, p: int)
    requires
        0 <= p <= x.len(),
        no_token_across(x, y, lang),
    ensures
        tokens_from(x + y, lang, p) == tokens_from(x, lang, p) + shifted(tokens_of(y, lang), x.len() as int),
    decreases x.len() - p,
{
    let s = x + y;
    let d = x.len() as int;
    if p == x.len() {
        lemma_tokens_of_tail(x, y, lang, p);
        assert(tokens_from(x, lang, p) =~= seq![]);
        assert(seq![] + shifted(tokens_of(y, lang), d) =~= shifted(tokens_of(y, lang), d));
    } else if token_starts_at(s, lang, p) {
        let (h, c) = choose|h: int, c: int| is_token(s, lang, p, h, c);
        lemma_token_in_head(x, y, lang, p, h, c);
        assert(token_starts_at(x, lang, p));
        let (h2, c2) = choose|h2: int, c2: int| is_token(x, lang, p, h2, c2);
        lemma_token_unique(x, lang, p, h, c, h2, c2);
        lemma_tokens_of_head(x, y, lang, c + 1);
        assert(tokens_from(s, lang, p) =~= tokens_from(x, lang, p) + shifted(tokens_of(y, lang), d));
    } else {
        assert(!token_starts_at(x, lang, p)) by {
            if token_starts_at(x, lang, p) {
                let (h2, c2) = choose|h2: int, c2: int| is_token(x, lang, p, h2, c2);
                lemma_token_in_head(x, y, lang, p, h2, c2);
            }
        }
        lemma_tokens_of_head(x, y, lang, p + 1);
    }
}

/// Where no token crosses from `x` into `y`, the tokens of `x + y` are
/// those of `x` followed by those of `y`, moved past `x`.
pub proof fn lemma_tokens_of_concat(x: Seq<char>, y: Seq<char>, lang: QueryLanguage)
    requires
        no_token_across(x, y, lang),
    ensures
        tokens_of(x + y, lang) == tokens_of(x, lang) + shifted(tokens_of(y, lang), x.len() as int),
{
    lemma_tokens_of_head(x, y, lang, 0);
}


proof fn lemma_splice_head(
    x: Seq<char>,
    y: Seq<char>,
    sx: Seq<(int, int, int)>,
    sy: Seq<(int, int, int)>,
    vx: Seq<Seq<char>>,
    vy: Seq<Seq<char>>,
    k: int,
)
    requires
        spans_in_order(sx, x.len() as int),
        vx.len() == sx.len(),
        0 <= k <= sx.len(),
    ensures
        spliced_upto(x + y, sx + shifted(sy, x.len() as int), vx + vy, k) == spliced_upto(x, sx, vx, k),
    decreases k,
{
    if k > 0 {
        let s = x + y;
        let sp = sx + shifted(sy, x.len() as int);
        lemma_splice_head(x, y, sx, sy, vx, vy, k - 1);
        assert(sp[k - 1] == sx[k - 1]);
        assert(sx[k - 1].0 < x.len());
        if k > 1 {
            assert(sp[k - 2] == sx[k - 2]);
        }
        assert(gap_start(sp, k - 1) == gap_start(sx, k - 1));
        assert(s.subrange(gap_start(sp, k - 1), sp[k - 1].0) =~= x.subrange(gap_start(sx, k - 1), sx[k - 1].0));
        assert((vx + vy)[k - 1] == vx[k - 1]) by {
            if k - 1 < vx.len() {
            }
        }
    }
}

proof fn lemma_splice_tail(
    x: Seq<char>,
    y: Seq<char>,
    sx: Seq<(int, int, int)>,
    sy: Seq<(int, int, int)>,
    vx: Seq<Seq<char>>,
    vy: Seq<Seq<char>>,
    j: int,
)
    requires
        spans_in_order(sx, x.len() as int),
        spans_in_order(sy, y.len() as int),
        vx.len() == sx.len(),
        vy.len() == sy.len(),
        1 <= j <= sy.len(),
    ensures
        spliced_upto(x + y, sx + shifted(sy, x.len() as int), vx + vy, sx.len() + j) == spliced(x, sx, vx)
            + spliced_upto(y, sy, vy, j),
    decreases j,
{
    let s = x + y;
    let d = x.len() as int;
    let sp = sx + shifted(sy, d);
    let v = vx + vy;
    let n = sx.len() as int;
    let k = n + j;
    assert(sp[k - 1] == (sy[j - 1].0 + d, sy[j - 1].1 + d, sy[j - 1].2 + d));
    assert(v[k - 1] == vy[j - 1]);
    assert(gap_start(sy, j - 1) <= sy[j - 1].0 < y.len());
    if j == 1 {
        lemma_splice_head(x, y, sx, sy, vx, vy, n);
        if n > 0 {
            assert(sp[n - 1] == sx[n - 1]);
            assert(sx[n - 1].2 < x.len());
        }
        assert(gap_start(sp, n) == gap_start(sx, n));
        assert(gap_start(sx, n) <= x.len()) by {
            if n > 0 {
                assert(sx[n - 1].2 < x.len());
            }
        }
        assert(s.subrange(gap_start(sp, n), sp[n].0) =~= x.subrange(gap_start(sx, n), x.len() as int)
            + y.subrange(0, sy[0].0));
        assert(spliced_upto(y, sy, vy, 0) =~= seq![]);
        assert(spliced_upto(y, sy, vy, 1) =~= y.subrange(0, sy[0].0) + vy[0]);
        assert(spliced_upto(s, sp, v, k) =~= spliced(x, sx, vx) + spliced_upto(y, sy, vy, j));
    } else {
        lemma_splice_tail(x, y, sx, sy, vx, vy, j - 1);
        assert(sp[k - 2] == (sy[j - 2].0 + d, sy[j - 2].1 + d, sy[j - 2].2 + d));
        assert(s.subrange(gap_start(sp, k - 1), sp[k - 1].0) =~= y.subrange(gap_start(sy, j - 1), sy[j - 1].0));
        assert(spliced_upto(s, sp, v, k) =~= spliced(x, sx, vx) + spliced_upto(y, sy, vy, j));
    }
}

/// Replacing tokens in `x + y` is replacing them in `x` and in `y` apart,
/// where no token crosses from `x` into `y`.
pub proof fn lemma_splice_concat(
    x: Seq<char>,
    y: Seq<char>,
    sx: Seq<(int, int, int)>,
    sy: Seq<(int, int, int)>,
    vx: Seq<Seq<char>>,
    vy: Seq<Seq<char>>,
)
    requires
        spans_in_order(sx, x.len() as int),
        spans_in_order(sy, y.len() as int),
        vx.len() == sx.len(),
        vy.len() == sy.len(),
    ensures
        spliced(x + y, sx + shifted(sy, x.len() as int), vx + vy) == spliced(x, sx, vx) + spliced(y, sy, vy),
{
    let s = x + y;
    let d = x.len() as int;
    let sp = sx + shifted(sy, d);
    let v = vx + vy;
    let n = sx.len() as int;
    let m = sy.len() as int;
    assert(gap_start(sx, n) <= x.len()) by {
        if n > 0 {
            assert(gap_start(sx, n - 1) <= sx[n - 1].0);
            assert(sx[n - 1].2 < x.len());
        }
    }
    if m == 0 {
        assert(sp =~= sx);
        assert(v =~= vx);
        lemma_splice_head(x, y, sx, sy, vx, vy, n);
        assert(spliced_upto(y, sy, vy, 0) =~= seq![]);
        assert(y.subrange(0, y.len() as int) =~= y);
        assert(s.subrange(gap_start(sx, n), s.len() as int) =~= x.subrange(gap_start(sx, n), x.len() as int) + y);
        assert(spliced(s, sp, v) =~= spliced(x, sx, vx) + spliced(y, sy, vy));
    } else {
        lemma_splice_tail(x, y, sx, sy, vx, vy, m);
        assert(sp[n + m - 1] == (sy[m - 1].0 + d, sy[m - 1].1 + d, sy[m - 1].2 + d));
        assert(sy[m - 1].2 < y.len());
        assert(s.subrange(gap_start(sp, n + m), s.len() as int) =~= y.subrange(gap_start(sy, m), y.len() as int));
        assert(spliced(s, sp, v) =~= spliced(x, sx, vx) + spliced(y, sy, vy));
    }
}


/// Every token of `s` resolves, to a fixed value.
pub open spec fn all_tokens_resolve(lang: QueryLanguage, s: Seq<char>, table: Seq<Resource>) -> bool {
    forall|i: int|
        0 <= i < tokens_of(s, lang).len() ==> (#[trigger] resolution(
            lang,
            table,
            span_resource(s, tokens_of(s, lang)[i]),
            span_query(s, tokens_of(s, lang)[i]),
        )) is Ok && value_fixed(lang, span_query(s, tokens_of(s, lang)[i]))
}

/// Where no token crosses from `x` into `y` and every token resolves to a
/// fixed value, replacing the tokens of `x + y` gives what replacing those
/// of `x` and of `y` gives, joined.
pub proof fn lemma_replace_concat(
    lang: QueryLanguage,
    x: Seq<char>,
    y: Seq<char>,
    table: Seq<Resource>,
    gx: Result<Seq<char>, ReplaceError>,
    gy: Result<Seq<char>, ReplaceError>,
    gxy: Result<Seq<char>, ReplaceError>,
)
    requires
        no_token_across(x, y, lang),
        all_tokens_resolve(lang, x, table),
        all_tokens_resolve(lang, y, table),
        replace_agrees(lang, x, table, gx),
        replace_agrees(lang, y, table, gy),
        replace_agrees(lang, x + y, table, gxy),
    ensures
        gx is Ok,
        gy is Ok,
        gxy == Ok::<Seq<char>, ReplaceError>(gx->Ok_0 + gy->Ok_0),
{
    let s = x + y;
    let d = x.len() as int;
    let sx = tokens_of(x, lang);
    let sy = tokens_of(y, lang);
    let n = sx.len() as int;
    lemma_tokens_of_concat(x, y, lang);
    lemma_tokens_in_order(x, lang);
    lemma_tokens_in_order(y, lang);
    let sp = tokens_of(s, lang);
    assert(sp == sx + shifted(sy, d));
    assert forall|k: int| 0 <= k < sp.len() implies span_resource(s, sp[k]) == (if k < n {
        span_resource(x, sx[k])
    } else {
        span_resource(y, sy[k - n])
    }) && span_query(s, sp[k]) == (if k < n {
        span_query(x, sx[k])
    } else {
        span_query(y, sy[k - n])
    }) by {
        if k < n {
            assert(sp[k] == sx[k]);
            assert(sx[k].0 < sx[k].1 < sx[k].2 < x.len()) by {
                assert(is_token(x, lang, sx[k].0, sx[k].1, sx[k].2)) by {
                    lemma_tokens_are_tokens(x, lang, k);
                }
            }
            assert(span_resource(s, sp[k]) =~= span_resource(x, sx[k]));
            assert(span_query(s, sp[k]) =~= span_query(x, sx[k]));
        } else {
            assert(sp[k] == (sy[k - n].0 + d, sy[k - n].1 + d, sy[k - n].2 + d));
            assert(is_token(y, lang, sy[k - n].0, sy[k - n].1, sy[k - n].2)) by {
                lemma_tokens_are_tokens(y, lang, k - n);
            }
            assert(span_resource(s, sp[k]) =~= span_resource(y, sy[k - n]));
            assert(span_query(s, sp[k]) =~= span_query(y, sy[k - n]));
        }
    }
    assert forall|k: int| 0 <= k < sp.len() implies (#[trigger] resolution(
        lang,
        table,
        span_resource(s, sp[k]),
        span_query(s, sp[k]),
    )) is Ok && value_fixed(lang, span_query(s, sp[k])) by {
        if k < n {
            assert(resolution(lang, table, span_resource(x, sx[k]), span_query(x, sx[k])) is Ok);
        } else {
            assert(resolution(lang, table, span_resource(y, sy[k - n]), span_query(y, sy[k - n])) is Ok);
        }
    }
    assert forall|i: int| 0 <= i < sx.len() implies #[trigger] value_fixed(lang, span_query(x, sx[i])) by {
        assert(resolution(lang, table, span_resource(x, sx[i]), span_query(x, sx[i])) is Ok);
    }
    assert forall|i: int| 0 <= i < sy.len() implies #[trigger] value_fixed(lang, span_query(y, sy[i])) by {
        assert(resolution(lang, table, span_resource(y, sy[i]), span_query(y, sy[i])) is Ok);
    }
    assert forall|i: int| 0 <= i < sp.len() implies #[trigger] value_fixed(lang, span_query(s, sp[i])) by {
        assert(resolution(lang, table, span_resource(s, sp[i]), span_query(s, sp[i])) is Ok);
    }
    lemma_tokens_resolve_independently(lang, x, table, gx);
    lemma_tokens_resolve_independently(lang, y, table, gy);
    lemma_tokens_resolve_independently(lang, s, table, gxy);
    let tx = Seq::new(sx.len(), |i: int| token_value(lang, x, table, i));
    let ty = Seq::new(sy.len(), |i: int| token_value(lang, y, table, i));
    let txy = Seq::new(sp.len(), |i: int| token_value(lang, s, table, i));
    assert(txy =~= tx + ty);
    lemma_splice_concat(x, y, sx, sy, tx, ty);
}

proof fn lemma_tokens_are_tokens(s: Seq<char>, lang: QueryLanguage, k: int)
    requires
        0 <= k < tokens_of(s, lang).len(),
    ensures
        is_token(s, lang, tokens_of(s, lang)[k].0, tokens_of(s, lang)[k].1, tokens_of(s, lang)[k].2),
{
    lemma_tokens_from_are_tokens(s, lang, 0, k);
}

proof fn lemma_tokens_from_are_tokens(s: Seq<char>, lang: QueryLanguage, p: int, k: int)
    requires
        0 <= p,
        0 <= k < tokens_from(s, lang, p).len(),
    ensures
        is_token(
            s,
            lang,
            tokens_from(s, lang, p)[k].0,
            tokens_from(s, lang, p)[k].1,
            tokens_from(s, lang, p)[k].2,
        ),
    decreases s.len() - p,
{
    if p >= s.len() {
    } else if token_starts_at(s, lang, p) {
        let (h, c) = choose|h: int, c: int| is_token(s, lang, p, h, c);
        if k > 0 {
            lemma_tokens_from_are_tokens(s, lang, c + 1, k - 1);
        }
    } else {
        lemma_tokens_from_are_tokens(s, lang, p + 1, k);
    }
}

} // verus!
