//! Evaluation of a token's query over the text of a resource file: XPath
//! over XML, JSONPath over JSON. The engines are outside crates; what they
//! return is named here and the policy around them is verified.
use vstd::prelude::*;
use crate::grammar::{chars_of, QueryLanguage};

verus! {

/// Why a token could not be resolved.
#[derive(Clone, Copy, Debug, PartialEq, Eq, Structural)]
pub enum ReplaceError {
    /// The resource file named by the token could not be read.
    ResourceRead,
    /// The resource file is not well-formed XML or JSON.
    Parse,
    /// The query is not one that the engine can evaluate.
    Query,
    /// The JSONPath query selected nothing.
    NoMatch,
    /// The first value that the JSONPath query selected is not a string.
    NotText,
}

/// The outcome of a resolution, with the value as a sequence of chars.
pub open spec fn outcome_view(r: Result<String, ReplaceError>) -> Result<Seq<char>, ReplaceError> {
    match r {
        Ok(v) => Ok(v@),
        Err(e) => Err(e),
    }
}

/// Whether `doc` parses as an XML document.
pub uninterp spec fn markup_parses(doc: Seq<char>) -> bool;

/// Whether the XPath `query` compiles and evaluates without error from the
/// root of the parsed `doc`.
pub uninterp spec fn xpath_evaluates(doc: Seq<char>, query: Seq<char>) -> bool;

/// The string value of what the XPath `query` yields over `doc`, for
/// queries whose value is fixed (see `xpath_value_fixed`).
pub uninterp spec fn xpath_string(doc: Seq<char>, query: Seq<char>) -> Seq<char>;

/// The quote (`'` or `"`) that is open just before position `i` of an XPath
/// query, if any. XPath string literals have no escapes.
pub open spec fn open_quote(query: Seq<char>, i: int) -> Option<char>
    decreases i,
{
    if i <= 0 || i > query.len() {
        None
    } else {
        match open_quote(query, i - 1) {
            None => if query[i - 1] == '\'' || query[i - 1] == '"' {
                Some(query[i - 1])
            } else {
                None
            },
            Some(q) => if query[i - 1] == q {
                None
            } else {
                Some(q)
            },
        }
    }
}

/// A colon outside string literals that is not half of `::`: it joins a
/// namespace prefix to a name (`ns:name`).
pub open spec fn prefix_colon_at(query: Seq<char>, i: int) -> bool {
    &&& 0 <= i < query.len()
    &&& query[i] == ':'
    &&& open_quote(query, i) is None
    &&& (i == 0 || query[i - 1] != ':')
    &&& (i + 1 == query.len() || query[i + 1] != ':')
}

pub open spec fn has_prefixed_name(query: Seq<char>) -> bool {
    exists|i: int| #[trigger] prefix_colon_at(query, i)
}

/// `namespace` starts at `i`.
pub open spec fn namespace_at(query: Seq<char>, i: int) -> bool {
    0 <= i && i + 9 <= query.len() && query[i] == 'n' && query[i + 1] == 'a' && query[i + 2] == 'm'
        && query[i + 3] == 'e' && query[i + 4] == 's' && query[i + 5] == 'p' && query[i + 6] == 'a'
        && query[i + 7] == 'c' && query[i + 8] == 'e'
}

/// Queries whose value the engine fixes: no function call (a sum adds in
/// the order of a hashed set) and no namespace axis (namespace nodes have no
/// document order). For the others only success or failure is fixed.
pub open spec fn xpath_value_fixed(query: Seq<char>) -> bool {
    &&& forall|i: int| 0 <= i < query.len() ==> #[trigger] query[i] != '('
    &&& forall|i: int| !#[trigger] namespace_at(query, i)
}

/// Relies on `sxd_document::parser::parse`: whether `doc` is a well-formed
/// XML document.
#[verifier::external_body]
fn parses_as_markup(doc: &str) -> (r: bool)
    ensures
        r == markup_parses(doc@),
{
    sxd_document::parser::parse(doc).is_ok()
}

/// Relies on `sxd_document::parser::parse` to parse `doc`, on
/// `sxd_xpath::evaluate_xpath` to evaluate `query` from the document's root,
/// and on `sxd_xpath::Value::string` for the string value of the result (for
/// a node-set: the string value of its first node in document order, or the
/// empty string). Names with a namespace prefix are left out: the engine
/// aborts on them, as its context declares no namespace.
#[verifier::external_body]
fn evaluate_xpath_text(doc: &str, query: &str) -> (r: Result<String, ReplaceError>)
    requires
        markup_parses(doc@),
        !has_prefixed_name(query@),
    ensures
        match r {
            Ok(v) => xpath_evaluates(doc@, query@) && (xpath_value_fixed(query@) ==> v@
                == xpath_string(doc@, query@)),
            Err(e) => e == ReplaceError::Query && !xpath_evaluates(doc@, query@),
        },
{
    let package = match sxd_document::parser::parse(doc) {
        Ok(p) => p,
        Err(_) => return Err(ReplaceError::Parse),
    };
    let document = package.as_document();
    match sxd_xpath::evaluate_xpath(&document, query) {
        Ok(value) => Ok(value.string()),
        Err(_) => Err(ReplaceError::Query),
    }
}

/// Whether `doc` parses as a JSON value.
pub uninterp spec fn json_parses(doc: Seq<char>) -> bool;

/// Whether `query` compiles as a JSONPath selector.
pub uninterp spec fn jsonpath_compiles(query: Seq<char>) -> bool;

/// The values that `query` selects in `doc`, in the order the selector
/// walks the document: the text of each that is a string, `None` for each
/// that is not.
pub uninterp spec fn jsonpath_matches(doc: Seq<char>, query: Seq<char>) -> Seq<Option<Seq<char>>>;

pub open spec fn is_digit(c: char) -> bool {
    '0' <= c && c <= '9'
}

/// The number that a run of ASCII digits spells.
pub open spec fn digits_value(s: Seq<char>) -> int
    decreases s.len(),
{
    if s.len() == 0 {
        0
    } else {
        digits_value(s.drop_last()) * 10 + (s.last() as int - '0' as int)
    }
}

/// Where the run of digits that ends before `j` starts.
pub open spec fn digits_start(query: Seq<char>, j: int) -> int
    decreases j,
{
    if 0 < j <= query.len() && is_digit(query[j - 1]) {
        digits_start(query, j - 1)
    } else {
        j
    }
}

/// Where the run of spaces that ends before `j` starts.
pub open spec fn spaces_start(query: Seq<char>, j: int) -> int
    decreases j,
{
    if 0 < j <= query.len() && query[j - 1] == ' ' {
        spaces_start(query, j - 1)
    } else {
        j
    }
}

pub open spec fn is_condition_char(c: char) -> bool {
    c == '=' || c == '<' || c == '>' || c == '!'
}

/// The `)` at `j` closes a filter whose value is an integer, after a
/// condition and spaces, that does not fit in an `i64`.
pub open spec fn oversized_filter_number_at(query: Seq<char>, j: int) -> bool {
    let i = digits_start(query, j);
    let k = spaces_start(query, i) - 1;
    &&& 0 <= j < query.len()
    &&& query[j] == ')'
    &&& i < j
    &&& 0 <= k
    &&& query[k] == '=' || query[k] == '<' || query[k] == '>'
    &&& digits_value(query.subrange(i, j)) > i64::MAX
}

/// The first condition character of a filter body from `i` on, at the
/// filter's own level: conditions of nested filters (`[?(` ... `)]`) are
/// passed over, and the filter's `)]` ends the search.
pub open spec fn filter_condition(query: Seq<char>, i: int, depth: nat) -> Option<char>
    decreases query.len() - i,
{
    if i < 0 || i >= query.len() {
        None
    } else if i + 3 <= query.len() && query[i] == '[' && query[i + 1] == '?' && query[i + 2] == '(' {
        filter_condition(query, i + 3, depth + 1)
    } else if i + 2 <= query.len() && query[i] == ')' && query[i + 1] == ']' {
        if depth == 0 {
            None
        } else {
            filter_condition(query, i + 2, (depth - 1) as nat)
        }
    } else if depth == 0 && is_condition_char(query[i]) {
        Some(query[i])
    } else {
        filter_condition(query, i + 1, depth)
    }
}

/// A filter on the root, `[?($`, starts at `p` and compares with `<` or `>`.
pub open spec fn ordered_root_filter_at(query: Seq<char>, p: int) -> bool {
    &&& 0 <= p && p + 4 <= query.len()
    &&& query[p] == '[' && query[p + 1] == '?' && query[p + 2] == '(' && query[p + 3] == '$'
    &&& (filter_condition(query, p + 4, 0) == Some('<') || filter_condition(query, p + 4, 0) == Some('>'))
}

/// JSONPath queries on which the engine does not abort. It aborts where a
/// filter compares with an integer that does not fit in an `i64`, and where
/// a filter on the root compares with `<` or `>`. Where such a query would
/// not compile, leaving it out changes nothing: the engine refuses it too.
pub open spec fn jsonpath_supported(query: Seq<char>) -> bool {
    &&& forall|j: int| !#[trigger] oversized_filter_number_at(query, j)
    &&& forall|p: int| !#[trigger] ordered_root_filter_at(query, p)
}

pub open spec fn match_view(m: Option<String>) -> Option<Seq<char>> {
    match m {
        None => None,
        Some(v) => Some(v@),
    }
}

pub open spec fn matches_view(ms: Seq<Option<String>>) -> Seq<Option<Seq<char>>> {
    ms.map_values(|m: Option<String>| match_view(m))
}

/// Relies on `serde_json::from_str`: whether `doc` parses as a
/// `serde_json::Value`.
#[verifier::external_body]
fn parses_as_json(doc: &str) -> (r: bool)
    ensures
        r == json_parses(doc@),
{
    serde_json::from_str::<serde_json::Value>(doc).is_ok()
}

/// Relies on `serde_json::from_str` to parse `doc` as a `serde_json::Value`,
/// on `jsonpath::Selector::new` to compile `query`, on `Selector::find` for
/// the values it selects, in the order the selector walks the document, and
/// on `Value::as_str` for the text of each.
#[verifier::external_body]
fn select_json(doc: &str, query: &str) -> (r: Result<Vec<Option<String>>, ReplaceError>)
    requires
        json_parses(doc@),
        jsonpath_supported(query@),
    ensures
        match r {
            Ok(ms) => jsonpath_compiles(query@) && matches_view(ms@) == jsonpath_matches(doc@, query@),
            Err(e) => e == ReplaceError::Query && !jsonpath_compiles(query@),
        },
{
    let json: serde_json::Value = match serde_json::from_str(doc) {
        Ok(v) => v,
        Err(_) => return Err(ReplaceError::Parse),
    };
    let selector = match jsonpath::Selector::new(query) {
        Ok(s) => s,
        Err(_) => return Err(ReplaceError::Query),
    };
    Ok(selector.find(&json).map(|v| v.as_str().map(|s| s.to_string())).collect())
}

/// What resolving an XPath query over the text `doc` gives.
pub open spec fn xpath_outcome(doc: Seq<char>, query: Seq<char>) -> Result<Seq<char>, ReplaceError> {
    if !markup_parses(doc) {
        Err(ReplaceError::Parse)
    } else if has_prefixed_name(query) {
        Err(ReplaceError::Query)
    } else if !xpath_evaluates(doc, query) {
        Err(ReplaceError::Query)
    } else {
        Ok(xpath_string(doc, query))
    }
}

/// The value taken from the selected JSON values: the first match wins and
/// later ones are not looked at.
pub open spec fn first_match_outcome(ms: Seq<Option<Seq<char>>>) -> Result<Seq<char>, ReplaceError> {
    if ms.len() == 0 {
        Err(ReplaceError::NoMatch)
    } else {
        match ms[0] {
            None => Err(ReplaceError::NotText),
            Some(v) => Ok(v),
        }
    }
}

/// What resolving a JSONPath query over the text `doc` gives.
pub open spec fn jsonpath_outcome(doc: Seq<char>, query: Seq<char>) -> Result<Seq<char>, ReplaceError> {
    if !json_parses(doc) {
        Err(ReplaceError::Parse)
    } else if !jsonpath_supported(query) {
        Err(ReplaceError::Query)
    } else if !jsonpath_compiles(query) {
        Err(ReplaceError::Query)
    } else {
        first_match_outcome(jsonpath_matches(doc, query))
    }
}

pub open spec fn query_outcome(lang: QueryLanguage, doc: Seq<char>, query: Seq<char>) -> Result<Seq<char>, ReplaceError> {
    match lang {
        QueryLanguage::XPath => xpath_outcome(doc, query),
        QueryLanguage::JsonPath => jsonpath_outcome(doc, query),
    }
}



/// Whether the engine fixes the value of `query`, not only its success.
pub open spec fn value_fixed(lang: QueryLanguage, query: Seq<char>) -> bool {
    match lang {
        QueryLanguage::XPath => xpath_value_fixed(query),
        QueryLanguage::JsonPath => true,
    }
}

/// `got` agrees with the `expected` outcome: the same error, or success,
/// with the same value where the value is fixed.
pub open spec fn outcome_agrees(
    got: Result<Seq<char>, ReplaceError>,
    expected: Result<Seq<char>, ReplaceError>,
    fixed: bool,
) -> bool {
    match expected {
        Err(e) => got == Err::<Seq<char>, ReplaceError>(e),
        Ok(v) => got is Ok && (fixed ==> got == Ok::<Seq<char>, ReplaceError>(v)),
    }
}

fn prefixed_name(query: &str) -> (r: bool)
    ensures
        r == has_prefixed_name(query@),
{
    let q = chars_of(query);
    let n = q.len();
    let mut quote: Option<char> = None;
    let mut i: usize = 0;
    while i < n
        invariant
            q@ == query@,
            n == q@.len(),
            i <= n,
            quote == open_quote(q@, i as int),
            forall|k: int| 0 <= k < i ==> !#[trigger] prefix_colon_at(q@, k),
        decreases n - i,
    {
        let c = q[i];
        if c == ':' && quote.is_none() && (i == 0 || q[i - 1] != ':') && (i + 1 == n || q[i + 1] != ':') {
            assert(prefix_colon_at(q@, i as int));
            return true;
        }
        quote = match quote {
            None => if c == '\'' || c == '"' {
                Some(c)
            } else {
                None
            },
            Some(o) => if c == o {
                None
            } else {
                Some(o)
            },
        };
        i = i + 1;
    }
    false
}

proof fn lemma_digits_value_grows(s: Seq<char>, m: int)
    requires
        0 <= m <= s.len(),
        forall|j: int| 0 <= j < s.len() ==> #[trigger] is_digit(s[j]),
    ensures
        0 <= digits_value(s.subrange(0, m)) <= digits_value(s),
    decreases s.len(),
{
    if s.len() > 0 {
        let t = s.drop_last();
        assert(is_digit(s[s.len() - 1]));
        assert forall|j: int| 0 <= j < t.len() implies #[trigger] is_digit(t[j]) by {
            assert(t[j] == s[j]);
        }
        lemma_digits_value_grows(t, t.len() as int);
        assert(t.subrange(0, t.len() as int) =~= t);
        if m < s.len() {
            lemma_digits_value_grows(t, m);
            assert(t.subrange(0, m) =~= s.subrange(0, m));
        } else {
            assert(s.subrange(0, m) =~= s);
        }
    } else {
        assert(s.subrange(0, m) =~= s);
    }
}

/// Whether the digits `q[i..j]` spell a number above `i64::MAX`.
fn exceeds_i64(q: &Vec<char>, i: usize, j: usize) -> (r: bool)
    requires
        i <= j <= q@.len(),
        forall|m: int| i <= m < j ==> #[trigger] is_digit(q@[m]),
    ensures
        r == (digits_value(q@.subrange(i as int, j as int)) > i64::MAX),
{
    let ghost s = q@.subrange(i as int, j as int);
    let mut v: u64 = 0;
    let mut m: usize = i;
    assert(s.subrange(0, 0) =~= seq![]);
    while m < j
        invariant
            i <= m <= j <= q@.len(),
            s == q@.subrange(i as int, j as int),
            forall|x: int| i <= x < j ==> #[trigger] is_digit(q@[x]),
            v as int == digits_value(s.subrange(0, m - i)),
            v <= i64::MAX,
        decreases j - m,
    {
        let c = q[m];
        assert(is_digit(q@[m as int]));
        let d = (c as u32 - '0' as u32) as u64;
        assert(d <= 9);
        assert(s.subrange(0, m + 1 - i).drop_last() =~= s.subrange(0, m - i));
        assert(s[m - i] == q@[m as int]);
        if v > (9223372036854775807u64 - d) / 10 {
            proof {
                assert((v as int) * 10 + (d as int) > i64::MAX) by (nonlinear_arith)
                    requires
                        v > (9223372036854775807u64 - d) / 10,
                        d <= 9,
                ;
                assert forall|x: int| 0 <= x < s.len() implies #[trigger] is_digit(s[x]) by {
                    assert(s[x] == q@[i + x]);
                }
                lemma_digits_value_grows(s, m + 1 - i);
                assert(s.subrange(0, s.len() as int) =~= s);
            }
            return true;
        }
        v = v * 10 + d;
        m = m + 1;
    }
    assert(s.subrange(0, j - i) =~= s);
    false
}

fn oversized_number_closed_at(q: &Vec<char>, j: usize) -> (r: bool)
    requires
        j < q@.len(),
    ensures
        r == oversized_filter_number_at(q@, j as int),
{
    if q[j] != ')' {
        return false;
    }
    let mut i: usize = j;
    while i > 0 && '0' <= q[i - 1] && q[i - 1] <= '9'
        invariant
            i <= j < q@.len(),
            digits_start(q@, j as int) == digits_start(q@, i as int),
            forall|m: int| i <= m < j ==> #[trigger] is_digit(q@[m]),
        decreases i,
    {
        i = i - 1;
    }
    if i == j {
        return false;
    }
    let mut k: usize = i;
    while k > 0 && q[k - 1] == ' '
        invariant
            k <= i,
            i < q@.len(),
            spaces_start(q@, i as int) == spaces_start(q@, k as int),
        decreases k,
    {
        k = k - 1;
    }
    if k == 0 {
        return false;
    }
    let c = q[k - 1];
    if !(c == '=' || c == '<' || c == '>') {
        return false;
    }
    exceeds_i64(q, i, j)
}

/// The first condition character of the filter body that starts at `start`.
fn condition_of_filter(q: &Vec<char>, start: usize) -> (r: Option<char>)
    requires
        start <= q@.len(),
    ensures
        r == filter_condition(q@, start as int, 0),
{
    let n = q.len();
    let mut i: usize = start;
    let mut depth: usize = 0;
    while i < n
        invariant
            n == q@.len(),
            start <= i <= n,
            depth <= i,
            filter_condition(q@, start as int, 0) == filter_condition(q@, i as int, depth as nat),
        decreases n - i,
    {
        if n - i >= 3 && q[i] == '[' && q[i + 1] == '?' && q[i + 2] == '(' {
            depth = depth + 1;
            i = i + 3;
        } else if n - i >= 2 && q[i] == ')' && q[i + 1] == ']' {
            if depth == 0 {
                return None;
            }
            depth = depth - 1;
            i = i + 2;
        } else if depth == 0 && (q[i] == '=' || q[i] == '<' || q[i] == '>' || q[i] == '!') {
            return Some(q[i]);
        } else {
            i = i + 1;
        }
    }
    None
}

fn supported_jsonpath(query: &str) -> (r: bool)
    ensures
        r == jsonpath_supported(query@),
{
    let q = chars_of(query);
    let n = q.len();
    let mut j: usize = 0;
    while j < n
        invariant
            q@ == query@,
            n == q@.len(),
            j <= n,
            forall|x: int| 0 <= x < j ==> !#[trigger] oversized_filter_number_at(q@, x),
            forall|x: int| 0 <= x < j ==> !#[trigger] ordered_root_filter_at(q@, x),
        decreases n - j,
    {
        if oversized_number_closed_at(&q, j) {
            return false;
        }
        if n - j >= 4 && q[j] == '[' && q[j + 1] == '?' && q[j + 2] == '(' && q[j + 3] == '$' {
            let c = condition_of_filter(&q, j + 4);
            if c == Some('<') || c == Some('>') {
                assert(ordered_root_filter_at(q@, j as int));
                return false;
            }
        }
        j = j + 1;
    }
    assert forall|x: int| !#[trigger] oversized_filter_number_at(q@, x) by {
        if 0 <= x < n {
        }
    }
    assert forall|x: int| !#[trigger] ordered_root_filter_at(q@, x) by {
        if 0 <= x < n {
        }
    }
    true
}

/// The value that the selected JSON values give: the text of the first,
/// or `NoMatch` where nothing was selected, or `NotText` where the first
/// value is not a string.
pub fn first_match_text(matches: Vec<Option<String>>) -> (r: Result<String, ReplaceError>)
    ensures
        outcome_view(r) == first_match_outcome(matches_view(matches@)),
{
    let mut matches = matches;
    if matches.len() == 0 {
        return Err(ReplaceError::NoMatch);
    }
    let ghost first = matches@[0];
    assert(matches_view(matches@)[0] == match_view(first));
    match matches.swap_remove(0) {
        None => Err(ReplaceError::NotText),
        Some(v) => Ok(v),
    }
}

/// Evaluates `query` in `lang` over the text `doc` of a resource file. The
/// document is parsed before the query is looked at.
pub fn evaluate_query(lang: QueryLanguage, doc: &str, query: &str) -> (r: Result<String, ReplaceError>)
    ensures
        outcome_agrees(outcome_view(r), query_outcome(lang, doc@, query@), value_fixed(lang, query@)),
{
    match lang {
        QueryLanguage::XPath => {
            if !parses_as_markup(doc) {
                return Err(ReplaceError::Parse);
            }
            if prefixed_name(query) {
                return Err(ReplaceError::Query);
            }
            evaluate_xpath_text(doc, query)
        },
        QueryLanguage::JsonPath => {
            if !parses_as_json(doc) {
                return Err(ReplaceError::Parse);
            }
            if !supported_jsonpath(query) {
                return Err(ReplaceError::Query);
            }
            match select_json(doc, query) {
                Ok(ms) => first_match_text(ms),
                Err(e) => Err(e),
            }
        },
    }
}

} // verus!
