//! Replacing every token of a text by the value its query selects, one
//! query language after another.
use vstd::prelude::*;
use crate::grammar::{
    are_tokens_of, find_tokens, spans_in_order, spans_of, spliced, substitute, tokens_of,
    views_of, QueryLanguage, Token,
};
use crate::query::{
    evaluate_query, outcome_agrees, outcome_view, query_outcome, value_fixed, ReplaceError,
};

verus! {

/// The text of a resource file, under the path by which tokens name it.
#[derive(Debug)]
pub struct Resource {
    pub path: String,
    pub content: String,
}

/// The content of the first resource of `table`, from index `k` on, whose
/// path is `path`.
pub open spec fn lookup_from(table: Seq<Resource>, path: Seq<char>, k: int) -> Option<Seq<char>>
    decreases table.len() - k,
{
    if k < 0 || k >= table.len() {
        None
    } else if table[k].path@ == path {
        Some(table[k].content@)
    } else {
        lookup_from(table, path, k + 1)
    }
}

pub open spec fn lookup(table: Seq<Resource>, path: Seq<char>) -> Option<Seq<char>> {
    lookup_from(table, path, 0)
}

/// Resolving one token: the resource it names must be in the table, and
/// its query is evaluated over that resource's text.
pub open spec fn resolution(
    lang: QueryLanguage,
    table: Seq<Resource>,
    path: Seq<char>,
    query: Seq<char>,
) -> Result<Seq<char>, ReplaceError> {
    match lookup(table, path) {
        None => Err(ReplaceError::ResourceRead),
        Some(doc) => query_outcome(lang, doc, query),
    }
}

pub open spec fn span_resource(s: Seq<char>, span: (int, int, int)) -> Seq<char> {
    s.subrange(span.0 + 1, span.1)
}

pub open spec fn span_query(s: Seq<char>, span: (int, int, int)) -> Seq<char> {
    s.subrange(span.1 + 1, span.2)
}

/// The values of the first `k` tokens, or the error of the first of them
/// that fails.
pub open spec fn resolve_upto(
    lang: QueryLanguage,
    s: Seq<char>,
    table: Seq<Resource>,
    spans: Seq<(int, int, int)>,
    k: int,
) -> Result<Seq<Seq<char>>, ReplaceError>
    decreases k,
{
    if k <= 0 {
        Ok(seq![])
    } else {
        match resolve_upto(lang, s, table, spans, k - 1) {
            Err(e) => Err(e),
            Ok(vs) => match resolution(
                lang,
                table,
                span_resource(s, spans[k - 1]),
                span_query(s, spans[k - 1]),
            ) {
                Err(e) => Err(e),
                Ok(v) => Ok(vs.push(v)),
            },
        }
    }
}

/// The values `vs` agree with the `expected` values of the tokens at
/// `spans`: equal wherever the token's query has a fixed value.
pub open spec fn values_agree(
    lang: QueryLanguage,
    s: Seq<char>,
    spans: Seq<(int, int, int)>,
    expected: Seq<Seq<char>>,
    vs: Seq<Seq<char>>,
) -> bool {
    &&& vs.len() == expected.len()
    &&& forall|k: int|
        0 <= k < vs.len() && value_fixed(lang, span_query(s, spans[k])) ==> #[trigger] vs[k]
            == expected[k]
}

/// What replacing the tokens of `s` for `lang` may give: the first error in
/// token order; or else `s` with every token replaced by a value that agrees
/// with its own resolution.
pub open spec fn replace_agrees(
    lang: QueryLanguage,
    s: Seq<char>,
    table: Seq<Resource>,
    got: Result<Seq<char>, ReplaceError>,
) -> bool {
    let spans = tokens_of(s, lang);
    match resolve_upto(lang, s, table, spans, spans.len() as int) {
        Err(e) => got == Err::<Seq<char>, ReplaceError>(e),
        Ok(expected) => exists|vs: Seq<Seq<char>>|
            #[trigger] values_agree(lang, s, spans, expected, vs) && got == Ok::<
                Seq<char>,
                ReplaceError,
            >(spliced(s, spans, vs)),
    }
}

proof fn lemma_replace_ok(
    lang: QueryLanguage,
    s: Seq<char>,
    table: Seq<Resource>,
    expected: Seq<Seq<char>>,
    vs: Seq<Seq<char>>,
)
    requires
        resolve_upto(lang, s, table, tokens_of(s, lang), tokens_of(s, lang).len() as int) == Ok::<
            Seq<Seq<char>>,
            ReplaceError,
        >(expected),
        values_agree(lang, s, tokens_of(s, lang), expected, vs),
    ensures
        replace_agrees(lang, s, table, Ok(spliced(s, tokens_of(s, lang), vs))),
{
    let spans = tokens_of(s, lang);
    let r = resolve_upto(lang, s, table, spans, spans.len() as int);
    assert(r->Ok_0 == expected);
    assert(values_agree(lang, s, spans, r->Ok_0, vs));
}

pub proof fn lemma_error_persists(
    lang: QueryLanguage,
    s: Seq<char>,
    table: Seq<Resource>,
    spans: Seq<(int, int, int)>,
    j: int,
    m: int,
)
    requires
        0 < j <= m,
        resolve_upto(lang, s, table, spans, j) is Err,
    ensures
        resolve_upto(lang, s, table, spans, m) == resolve_upto(lang, s, table, spans, j),
    decreases m - j,
{
    if m > j {
        lemma_error_persists(lang, s, table, spans, j, m - 1);
    }
}

/// The content that `table` holds for `path`.
pub fn find_resource<'a>(table: &'a Vec<Resource>, path: &String) -> (r: Option<&'a String>)
    ensures
        match r {
            None => lookup(table@, path@) is None,
            Some(c) => lookup(table@, path@) == Some(c@),
        },
{
    let mut k: usize = 0;
    while k < table.len()
        invariant
            k <= table@.len(),
            lookup(table@, path@) == lookup_from(table@, path@, k as int),
        decreases table@.len() - k,
    {
        if table[k].path == *path {
            return Some(&table[k].content);
        }
        k = k + 1;
    }
    None
}

/// Replaces each token of `contents` for `lang` by the value of its query
/// over the resource it names. Tokens are resolved left to right and the
/// first failure is returned; values are inserted as they are.
pub fn replace_tokens(lang: QueryLanguage, contents: &String, resources: &Vec<Resource>) -> (r: Result<String, ReplaceError>)
    ensures
        replace_agrees(lang, contents@, resources@, outcome_view(r)),
{
    let toks = find_tokens(contents.as_str(), lang);
    let ghost s = contents@;
    let ghost spans = tokens_of(s, lang);
    let ghost n = spans.len() as int;
    let mut values: Vec<String> = Vec::new();
    let ghost mut expected: Seq<Seq<char>> = seq![];
    assert(views_of(values@) =~= seq![]);
    let mut k: usize = 0;
    while k < toks.len()
        invariant
            k <= toks@.len() == n,
            s == contents@,
            spans == tokens_of(s, lang),
            are_tokens_of(toks@, s, lang),
            spans_of(toks@) == spans,
            spans_in_order(spans, s.len() as int),
            values@.len() == k,
            resolve_upto(lang, s, resources@, spans, k as int) == Ok::<Seq<Seq<char>>, ReplaceError>(expected),
            values_agree(lang, s, spans, expected, views_of(values@)),
        decreases toks@.len() - k,
    {
        let t = &toks[k];
        assert(t.found_in(s, spans[k as int]));
        let value = match find_resource(resources, &t.resource) {
            None => {
                proof {
                    lemma_error_persists(lang, s, resources@, spans, k + 1, n);
                }
                return Err(ReplaceError::ResourceRead);
            },
            Some(doc) => match evaluate_query(lang, doc.as_str(), t.expression.as_str()) {
                Ok(v) => v,
                Err(e) => {
                    proof {
                        lemma_error_persists(lang, s, resources@, spans, k + 1, n);
                    }
                    return Err(e);
                },
            },
        };
        let ghost before = values@;
        let ghost ev = resolution(lang, resources@, span_resource(s, spans[k as int]), span_query(s, spans[k as int]))->Ok_0;
        values.push(value);
        proof {
            assert(views_of(values@) =~= views_of(before).push(value@));
            expected = expected.push(ev);
        }
        k = k + 1;
    }
    let out = substitute(contents.as_str(), &toks, &values);
    assert(k as int == n);
    assert(resolve_upto(lang, s, resources@, spans, spans.len() as int) == Ok::<Seq<Seq<char>>, ReplaceError>(expected));
    assert(out@ == spliced(s, spans, views_of(values@)));
    proof {
        lemma_replace_ok(lang, s, resources@, expected, views_of(values@));
    }
    assert(outcome_view(Ok::<String, ReplaceError>(out)) == Ok::<Seq<char>, ReplaceError>(spliced(s, spans, views_of(values@))));
    Ok(out)
}

/// A strategy that pairs a token grammar with a query engine.
pub trait ExpressionReplacer {
    /// The query language whose tokens this replacer claims.
    spec fn language(&self) -> QueryLanguage;

    fn query_language(&self) -> (r: QueryLanguage)
        ensures
            r == self.language(),
    ;

    /// The tokens of `contents` that this replacer claims.
    fn tokens(&self, contents: &String) -> (r: Vec<Token>)
        ensures
            are_tokens_of(r@, contents@, self.language()),
    {
        find_tokens(contents.as_str(), self.query_language())
    }

    /// The value of `expression` over the text of a resource file.
    fn search(&self, file_content: &str, expression: &str) -> (r: Result<String, ReplaceError>)
        ensures
            outcome_agrees(
                outcome_view(r),
                query_outcome(self.language(), file_content@, expression@),
                value_fixed(self.language(), expression@),
            ),
    {
        evaluate_query(self.query_language(), file_content, expression)
    }

    /// `contents` with each of this replacer's tokens replaced by its value,
    /// or the first error met.
    fn replace(&self, contents: &String, resources: &Vec<Resource>) -> (r: Result<String, ReplaceError>)
        ensures
            replace_agrees(self.language(), contents@, resources@, outcome_view(r)),
    {
        replace_tokens(self.query_language(), contents, resources)
    }
}

/// Resolves `{file#xpath}` tokens against XML resource files.
#[derive(Clone, Copy, Debug)]
pub struct XmlReplacer;

impl ExpressionReplacer for XmlReplacer {
    open spec fn language(&self) -> QueryLanguage {
        QueryLanguage::XPath
    }

    fn query_language(&self) -> (r: QueryLanguage) {
        QueryLanguage::XPath
    }
}

/// Resolves `{file#jsonpath}` tokens against JSON resource files.
#[derive(Clone, Copy, Debug)]
pub struct JsonReplacer;

impl ExpressionReplacer for JsonReplacer {
    open spec fn language(&self) -> QueryLanguage {
        QueryLanguage::JsonPath
    }

    fn query_language(&self) -> (r: QueryLanguage) {
        QueryLanguage::JsonPath
    }
}

/// One replacer's pass: an error is passed on; otherwise the pass may give
/// what `replace_agrees` allows.
pub open spec fn pass_agrees(
    lang: QueryLanguage,
    table: Seq<Resource>,
    before: Result<Seq<char>, ReplaceError>,
    after: Result<Seq<char>, ReplaceError>,
) -> bool {
    match before {
        Err(e) => after == Err::<Seq<char>, ReplaceError>(e),
        Ok(t) => replace_agrees(lang, t, table, after),
    }
}

/// `steps[i]` is the outcome after the first `i` replacers of `langs`,
/// starting from `s`.
pub open spec fn pipeline_steps(
    langs: Seq<QueryLanguage>,
    s: Seq<char>,
    table: Seq<Resource>,
    steps: Seq<Result<Seq<char>, ReplaceError>>,
) -> bool {
    &&& steps.len() == langs.len() + 1
    &&& steps[0] == Ok::<Seq<char>, ReplaceError>(s)
    &&& forall|i: int| 0 <= i < langs.len() ==> pass_agrees(langs[i], table, steps[i], #[trigger] steps[i + 1])
}

/// What running the replacers in order may give, each over the text the
/// one before it left; the first error stops the run.
pub open spec fn pipeline_agrees(
    langs: Seq<QueryLanguage>,
    s: Seq<char>,
    table: Seq<Resource>,
    got: Result<Seq<char>, ReplaceError>,
) -> bool {
    exists|steps: Seq<Result<Seq<char>, ReplaceError>>|
        #[trigger] pipeline_steps(langs, s, table, steps) && steps.last() == got
}

/// Runs the replacers of `langs` over `contents` in order. A token that an
/// earlier replacer resolved is gone before a later one scans the text.
pub fn apply(langs: &Vec<QueryLanguage>, contents: &String, resources: &Vec<Resource>) -> (r: Result<String, ReplaceError>)
    ensures
        pipeline_agrees(langs@, contents@, resources@, outcome_view(r)),
{
    let mut text = contents.clone();
    let mut k: usize = 0;
    let ghost mut steps: Seq<Result<Seq<char>, ReplaceError>> = seq![Ok(contents@)];
    while k < langs.len()
        invariant
            k <= langs@.len(),
            steps.len() == k + 1,
            steps[0] == Ok::<Seq<char>, ReplaceError>(contents@),
            forall|i: int| 0 <= i < k ==> pass_agrees(langs@[i], resources@, steps[i], #[trigger] steps[i + 1]),
            steps.last() == Ok::<Seq<char>, ReplaceError>(text@),
        decreases langs@.len() - k,
    {
        let r = replace_tokens(langs[k], &text, resources);
        let ghost prev = steps;
        proof {
            steps = steps.push(outcome_view(r));
            assert forall|i: int| 0 <= i < k + 1 implies pass_agrees(langs@[i], resources@, steps[i], #[trigger] steps[i + 1]) by {
                if i < k {
                    assert(steps[i] == prev[i] && steps[i + 1] == prev[i + 1]);
                }
            }
        }
        match r {
            Ok(t) => {
                text = t;
            },
            Err(e) => {
                let ghost rest = Seq::new((langs@.len() - k - 1) as nat, |i: int| Err::<Seq<char>, ReplaceError>(e));
                let ghost all = steps + rest;
                assert forall|i: int| 0 <= i < langs@.len() implies pass_agrees(langs@[i], resources@, all[i], #[trigger] all[i + 1]) by {
                    if i <= k {
                        assert(all[i] == steps[i] && all[i + 1] == steps[i + 1]);
                    } else {
                        assert(all[i] == Err::<Seq<char>, ReplaceError>(e));
                    }
                }
                assert(all.last() == Err::<Seq<char>, ReplaceError>(e));
                assert(pipeline_steps(langs@, contents@, resources@, all));
                return Err(e);
            },
        }
        k = k + 1;
    }
    assert(pipeline_steps(langs@, contents@, resources@, steps));
    Ok(text)
}

} // verus!
