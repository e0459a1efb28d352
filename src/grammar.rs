//! The token grammar: `{` resource path `#` query `}`, with a character class
//! for each segment, and the left-to-right scan that finds tokens.
use vstd::prelude::*;

verus! {

/// The query language of a token; it fixes which characters the query
/// segment may hold and which engine evaluates the query.
#[derive(Clone, Copy, Debug, PartialEq, Eq, Structural)]
pub enum QueryLanguage {
    XPath,
    JsonPath,
}

/// Whether `c` is a word character by Unicode's tables: Alphabetic,
/// Join_Control, Decimal_Number, Mark or Connector_Punctuation.
pub uninterp spec fn unicode_word_char(c: char) -> bool;

/// Relies on `regex_syntax::is_word_character` (with the `unicode-perl`
/// feature, so it does not panic): whether a char is in the Unicode word
/// class of `\w`; the answer depends on the char alone.
#[verifier::external_body]
fn is_unicode_word_char(c: char) -> (r: bool)
    ensures
        r == unicode_word_char(c),
{
    regex_syntax::is_word_character(c)
}

/// Word characters, as `\w` has them: ASCII letters, digits and `_`, and
/// beyond ASCII the Unicode word class.
pub open spec fn is_word_char(c: char) -> bool {
    if (c as u32) < 128 {
        ('a' <= c && c <= 'z') || ('A' <= c && c <= 'Z') || ('0' <= c && c <= '9') || c == '_'
    } else {
        unicode_word_char(c)
    }
}

/// Characters of the resource path segment: word characters, the path
/// separators `/` and `\`, `.`, `:`, `~` and `-`.
pub open spec fn is_path_char(c: char) -> bool {
    is_word_char(c) || c == '/' || c == '\\' || c == '.' || c == ':' || c == '~' || c == '-'
}

/// Characters of an XPath query segment.
pub open spec fn is_xpath_char(c: char) -> bool {
    is_word_char(c) || c == ' ' || c == '=' || c == '/' || c == '[' || c == ']' || c == '"'
        || c == '\'' || c == '.' || c == ':' || c == '@'
}

/// Characters of a JSONPath query segment.
pub open spec fn is_jsonpath_char(c: char) -> bool {
    is_word_char(c) || c == '$' || c == '@' || c == '*' || c == '.' || c == '[' || c == ']'
        || c == '(' || c == ')' || c == ':' || c == '?' || c == '<' || c == '>' || c == '!'
        || c == '=' || c == '~' || c == '\'' || c == ' '
}

pub open spec fn is_query_char(lang: QueryLanguage, c: char) -> bool {
    match lang {
        QueryLanguage::XPath => is_xpath_char(c),
        QueryLanguage::JsonPath => is_jsonpath_char(c),
    }
}

/// `s[open..=close]` is a token: `{` at `open`, a non-empty path, `#` at
/// `hash`, a non-empty query, `}` at `close`.
pub open spec fn is_token(s: Seq<char>, lang: QueryLanguage, open: int, hash: int, close: int) -> bool {
    &&& 0 <= open
    &&& open + 1 < hash
    &&& hash + 1 < close
    &&& close < s.len()
    &&& s[open] == '{'
    &&& s[hash] == '#'
    &&& s[close] == '}'
    &&& forall|k: int| open < k < hash ==> #[trigger] is_path_char(s[k])
    &&& forall|k: int| hash < k < close ==> #[trigger] is_query_char(lang, s[k])
}

pub open spec fn token_starts_at(s: Seq<char>, lang: QueryLanguage, open: int) -> bool {
    exists|hash: int, close: int| is_token(s, lang, open, hash, close)
}

/// The tokens of `s` from position `p` on, as (open, hash, close) triples:
/// leftmost first, and the scan goes on after the end of each token found.
pub open spec fn tokens_from(s: Seq<char>, lang: QueryLanguage, p: int) -> Seq<(int, int, int)>
    decreases s.len() - p,
{
    if p < 0 || p >= s.len() {
        seq![]
    } else if token_starts_at(s, lang, p) {
        let (hash, close) = choose|hash: int, close: int| is_token(s, lang, p, hash, close);
        seq![(p, hash, close)] + tokens_from(s, lang, close + 1)
    } else {
        tokens_from(s, lang, p + 1)
    }
}

/// All tokens of `s`.
pub open spec fn tokens_of(s: Seq<char>, lang: QueryLanguage) -> Seq<(int, int, int)> {
    tokens_from(s, lang, 0)
}

/// A token starting at a given position ends at one place only.
pub proof fn lemma_token_unique(
    s: Seq<char>,
    lang: QueryLanguage,
    open: int,
    h1: int,
    c1: int,
    h2: int,
    c2: int,
)
    requires
        is_token(s, lang, open, h1, c1),
        is_token(s, lang, open, h2, c2),
    ensures
        h1 == h2,
        c1 == c2,
{
    if h1 < h2 {
        assert(is_path_char(s[h1]));
    }
    if h2 < h1 {
        assert(is_path_char(s[h2]));
    }
    if c1 < c2 {
        assert(is_query_char(lang, s[c1]));
    }
    if c2 < c1 {
        assert(is_query_char(lang, s[c2]));
    }
}


fn word_char(c: char) -> (r: bool)
    ensures
        r == is_word_char(c),
{
    if (c as u32) < 128 {
        ('a' <= c && c <= 'z') || ('A' <= c && c <= 'Z') || ('0' <= c && c <= '9') || c == '_'
    } else {
        is_unicode_word_char(c)
    }
}

fn path_char(c: char) -> (r: bool)
    ensures
        r == is_path_char(c),
{
    word_char(c) || c == '/' || c == '\\' || c == '.' || c == ':' || c == '~' || c == '-'
}

fn query_char(lang: QueryLanguage, c: char) -> (r: bool)
    ensures
        r == is_query_char(lang, c),
{
    match lang {
        QueryLanguage::XPath => {
            word_char(c) || c == ' ' || c == '=' || c == '/' || c == '[' || c == ']' || c == '"'
                || c == '\'' || c == '.' || c == ':' || c == '@'
        },
        QueryLanguage::JsonPath => {
            word_char(c) || c == '$' || c == '@' || c == '*' || c == '.' || c == '[' || c == ']'
                || c == '(' || c == ')' || c == ':' || c == '?' || c == '<' || c == '>' || c
                == '!' || c == '=' || c == '~' || c == '\'' || c == ' '
        },
    }
}

/// The token that starts at `open`, as its `#` and `}` positions.
fn token_at(cs: &Vec<char>, lang: QueryLanguage, open: usize) -> (r: Option<(usize, usize)>)
    requires
        open < cs@.len(),
    ensures
        match r {
            Some((hash, close)) => is_token(cs@, lang, open as int, hash as int, close as int),
            None => !token_starts_at(cs@, lang, open as int),
        },
{
    let n = cs.len();
    if cs[open] != '{' {
        return None;
    }
    let mut hash: usize = open + 1;
    while hash < n && path_char(cs[hash])
        invariant
            open < hash <= n,
            n == cs@.len(),
            forall|k: int| open < k < hash ==> #[trigger] is_path_char(cs@[k]),
        decreases n - hash,
    {
        hash = hash + 1;
    }
    if hash == open + 1 || hash == n || cs[hash] != '#' {
        proof {
            assert forall|h: int, c: int| !is_token(cs@, lang, open as int, h, c) by {
                if is_token(cs@, lang, open as int, h, c) {
                    if h < hash {
                        assert(is_path_char(cs@[h]));
                    } else if h > hash {
                        assert(is_path_char(cs@[hash as int]));
                    }
                }
            }
        }
        return None;
    }
    let mut close: usize = hash + 1;
    while close < n && query_char(lang, cs[close])
        invariant
            hash < close <= n,
            n == cs@.len(),
            forall|k: int| hash < k < close ==> #[trigger] is_query_char(lang, cs@[k]),
        decreases n - close,
    {
        close = close + 1;
    }
    if close == hash + 1 || close == n || cs[close] != '}' {
        proof {
            assert forall|h: int, c: int| !is_token(cs@, lang, open as int, h, c) by {
                if is_token(cs@, lang, open as int, h, c) {
                    if h < hash {
                        assert(is_path_char(cs@[h]));
                    } else if h > hash {
                        assert(is_path_char(cs@[hash as int]));
                    } else if c < close {
                        assert(is_query_char(lang, cs@[c]));
                    } else if c > close {
                        assert(is_query_char(lang, cs@[close as int]));
                    }
                }
            }
        }
        return None;
    }
    Some((hash, close))
}


/// A token found in a text: where it stands (char positions of `{`, `#` and
/// `}`) and its two segments.
#[derive(Debug)]
pub struct Token {
    pub open: usize,
    pub hash: usize,
    pub close: usize,
    pub resource: String,
    pub expression: String,
}

impl Token {
    /// The token's place in the text it was found in.
    pub open spec fn span(&self) -> (int, int, int) {
        (self.open as int, self.hash as int, self.close as int)
    }

    /// The token is the one at `span` in `s`, with its segments as they stand there.
    pub open spec fn found_in(&self, s: Seq<char>, span: (int, int, int)) -> bool {
        &&& self.span() == span
        &&& self.resource@ == s.subrange(span.0 + 1, span.1)
        &&& self.expression@ == s.subrange(span.1 + 1, span.2)
    }
}

/// The tokens `toks` are exactly the tokens of `s` for `lang`, in order.
pub open spec fn are_tokens_of(toks: Seq<Token>, s: Seq<char>, lang: QueryLanguage) -> bool {
    let spans = tokens_of(s, lang);
    &&& toks.len() == spans.len()
    &&& forall|k: int| 0 <= k < toks.len() ==> #[trigger] toks[k].found_in(s, spans[k])
}

pub(crate) fn chars_of(text: &str) -> (r: Vec<char>)
    ensures
        r@ == text@,
{
    let mut v: Vec<char> = Vec::new();
    for c in it: text.chars()
        invariant
            v@ == it.seq().subrange(0, it.index() as int),
    {
        v.push(c);
    }
    v
}


proof fn lemma_tokens_from_step(s: Seq<char>, lang: QueryLanguage, p: int, hash: int, close: int)
    requires
        is_token(s, lang, p, hash, close),
    ensures
        tokens_from(s, lang, p) == seq![(p, hash, close)] + tokens_from(s, lang, close + 1),
{
    assert(token_starts_at(s, lang, p));
    let (h, c) = choose|h: int, c: int| is_token(s, lang, p, h, c);
    lemma_token_unique(s, lang, p, h, c, hash, close);
}

/// The tokens of `text` for `lang`, leftmost first; the scan resumes after
/// the `}` of each token found, so tokens never overlap.
pub fn find_tokens(text: &str, lang: QueryLanguage) -> (r: Vec<Token>)
    ensures
        are_tokens_of(r@, text@, lang),
        spans_of(r@) == tokens_of(text@, lang),
        spans_in_order(spans_of(r@), text@.len() as int),
{
    let cs = chars_of(text);
    let n = cs.len();
    let mut toks: Vec<Token> = Vec::new();
    let mut i: usize = 0;
    while i < n
        invariant
            n == cs@.len(),
            cs@ == text@,
            i <= n,
            toks.len() + tokens_from(text@, lang, i as int).len() == tokens_of(text@, lang).len(),
            forall|k: int| 0 <= k < toks.len() ==> #[trigger] toks@[k].found_in(text@, tokens_of(text@, lang)[k]),
            forall|k: int| 0 <= k < tokens_from(text@, lang, i as int).len() ==>
                tokens_of(text@, lang)[toks.len() + k] == #[trigger] tokens_from(text@, lang, i as int)[k],
        decreases n - i,
    {
        match token_at(&cs, lang, i) {
            Some((hash, close)) => {
                proof {
                    lemma_tokens_from_step(text@, lang, i as int, hash as int, close as int);
                }
                let resource = String::from_str(text.substring_char(i + 1, hash));
                let expression = String::from_str(text.substring_char(hash + 1, close));
                let ghost before = tokens_from(text@, lang, i as int);
                let ghost open = i as int;
                assert(before[0] == (open, hash as int, close as int));
                assert(tokens_of(text@, lang)[toks.len() as int] == before[0]);
                toks.push(Token { open: i, hash, close, resource, expression });
                i = close + 1;
                proof {
                    assert forall|k: int| 0 <= k < tokens_from(text@, lang, i as int).len() implies
                        tokens_of(text@, lang)[toks.len() + k] == #[trigger] tokens_from(text@, lang, i as int)[k] by {
                        assert(before[k + 1] == tokens_from(text@, lang, i as int)[k]);
                    }
                }
            },
            None => {
                i = i + 1;
            },
        }
    }
    proof {
        lemma_tokens_in_order(text@, lang);
        assert forall|k: int| 0 <= k < toks@.len() implies #[trigger] spans_of(toks@)[k] == tokens_of(text@, lang)[k] by {
            assert(toks@[k].found_in(text@, tokens_of(text@, lang)[k]));
        }
        assert(spans_of(toks@) =~= tokens_of(text@, lang));
    }
    toks
}


/// Where the text between token `k - 1` and token `k` begins.
pub open spec fn gap_start(spans: Seq<(int, int, int)>, k: int) -> int {
    if k <= 0 {
        0
    } else {
        spans[k - 1].2 + 1
    }
}

/// The spans stand in order within a text of length `n`, without overlap.
pub open spec fn spans_in_order(spans: Seq<(int, int, int)>, n: int) -> bool {
    forall|k: int|
        0 <= k < spans.len() ==> 0 <= gap_start(spans, k) && gap_start(spans, k)
            <= #[trigger] spans[k].0 && spans[k].0 < spans[k].2 && spans[k].2 < n
}

/// The text up to the end of token `k`, with the first `k` tokens replaced
/// by their values.
pub open spec fn spliced_upto(
    s: Seq<char>,
    spans: Seq<(int, int, int)>,
    values: Seq<Seq<char>>,
    k: int,
) -> Seq<char>
    decreases k,
{
    if k <= 0 {
        seq![]
    } else {
        spliced_upto(s, spans, values, k - 1) + s.subrange(gap_start(spans, k - 1), spans[k - 1].0)
            + values[k - 1]
    }
}

/// `s` with each span replaced by the value of the same index.
pub open spec fn spliced(s: Seq<char>, spans: Seq<(int, int, int)>, values: Seq<Seq<char>>) -> Seq<char> {
    spliced_upto(s, spans, values, spans.len() as int) + s.subrange(
        gap_start(spans, spans.len() as int),
        s.len() as int,
    )
}

pub open spec fn spans_of(toks: Seq<Token>) -> Seq<(int, int, int)> {
    toks.map_values(|t: Token| t.span())
}

pub open spec fn views_of(values: Seq<String>) -> Seq<Seq<char>> {
    values.map_values(|v: String| v@)
}

proof fn lemma_tokens_from_in_order(s: Seq<char>, lang: QueryLanguage, p: int)
    requires
        0 <= p,
    ensures
        forall|k: int|
            0 <= k < tokens_from(s, lang, p).len() ==> p <= #[trigger] tokens_from(s, lang, p)[k].0
                && tokens_from(s, lang, p)[k].0 < tokens_from(s, lang, p)[k].1 < tokens_from(s, lang, p)[k].2 < s.len(),
        forall|k: int|
            0 < k < tokens_from(s, lang, p).len() ==> tokens_from(s, lang, p)[k - 1].2 < #[trigger] tokens_from(s, lang, p)[k].0,
    decreases s.len() - p,
{
    if p >= s.len() {
    } else if token_starts_at(s, lang, p) {
        let (hash, close) = choose|hash: int, close: int| is_token(s, lang, p, hash, close);
        lemma_tokens_from_in_order(s, lang, close + 1);
        let rest = tokens_from(s, lang, close + 1);
        assert(tokens_from(s, lang, p) == seq![(p, hash, close)] + rest);
        assert forall|k: int| 0 <= k < tokens_from(s, lang, p).len() implies p <= #[trigger] tokens_from(s, lang, p)[k].0
                && tokens_from(s, lang, p)[k].0 < tokens_from(s, lang, p)[k].1 < tokens_from(s, lang, p)[k].2 < s.len() by {
            if k >= 1 {
                assert(tokens_from(s, lang, p)[k] == rest[k - 1]);
                assert(close + 1 <= rest[k - 1].0);
            }
        }
        assert forall|k: int| 0 < k < tokens_from(s, lang, p).len() implies tokens_from(s, lang, p)[k - 1].2 < #[trigger] tokens_from(s, lang, p)[k].0 by {
            if k >= 2 {
                assert(rest[k - 2].2 < rest[k - 1].0);
            } else {
                assert(close + 1 <= rest[k - 1].0);
            }
        }
    } else {
        lemma_tokens_from_in_order(s, lang, p + 1);
        assert(tokens_from(s, lang, p) == tokens_from(s, lang, p + 1));
    }
}

/// The tokens of a text stand in order within it.
pub proof fn lemma_tokens_in_order(s: Seq<char>, lang: QueryLanguage)
    ensures
        spans_in_order(tokens_of(s, lang), s.len() as int),
{
    lemma_tokens_from_in_order(s, lang, 0);
    let t = tokens_of(s, lang);
    assert forall|k: int| 0 <= k < t.len() implies 0 <= #[trigger] gap_start(t, k) by {
        if k > 0 {
            assert(0 <= tokens_from(s, lang, 0)[k - 1].0);
            assert(tokens_from(s, lang, 0)[k - 1].0 < tokens_from(s, lang, 0)[k - 1].2);
        }
    }
}

/// `text` with each token replaced by the value of the same index. The
/// values are inserted as they are: nothing in them is scanned again.
pub fn substitute(text: &str, toks: &Vec<Token>, values: &Vec<String>) -> (r: String)
    requires
        toks@.len() == values@.len(),
        spans_in_order(spans_of(toks@), text@.len() as int),
    ensures
        r@ == spliced(text@, spans_of(toks@), views_of(values@)),
{
    let ghost spans = spans_of(toks@);
    let ghost vals = views_of(values@);
    let n = text.unicode_len();
    let mut out = String::new();
    let mut prev: usize = 0;
    let mut k: usize = 0;
    while k < toks.len()
        invariant
            k <= toks@.len() == values@.len(),
            n == text@.len(),
            spans == spans_of(toks@),
            vals == views_of(values@),
            spans_in_order(spans, n as int),
            prev == gap_start(spans, k as int),
            out@ == spliced_upto(text@, spans, vals, k as int),
        decreases toks@.len() - k,
    {
        let t = &toks[k];
        assert(spans[k as int] == t.span());
        assert(spans[k as int].0 == t.open as int);
        out.append(text.substring_char(prev, t.open));
        out.append(values[k].as_str());
        prev = t.close + 1;
        k = k + 1;
        assert(vals[k - 1] == values@[k - 1]@);
    }
    out.append(text.substring_char(prev, n));
    out
}

} // verus!
