use xpljn::{
    apply, evaluate_query, find_tokens, first_match_text, substitute, Config, QueryLanguage,
    ExpressionReplacer, ReplaceError, Resource, XmlReplacer,
};

const DOC_XML: &str = "<Resources><Strings><Hello>Hi!</Hello><Bye>Byebye!</Bye></Strings></Resources>";
const DOC_JSON: &str = r#"{"Hello": "Hi!", "Bye": ["Byebye!", "Ja ne!"], "Count": 3}"#;

#[test]
fn scan_finds_tokens_left_to_right() {
    let text = "a {x.xml#/r/a} b {y/z.xml#/r[@k='v']/b} c";
    let toks = find_tokens(text, QueryLanguage::XPath);
    assert_eq!(toks.len(), 2);
    assert_eq!((toks[0].open, toks[0].hash, toks[0].close), (2, 8, 13));
    assert_eq!(toks[0].resource, "x.xml");
    assert_eq!(toks[0].expression, "/r/a");
    assert_eq!(toks[1].resource, "y/z.xml");
    assert_eq!(toks[1].expression, "/r[@k='v']/b");
}

#[test]
fn scan_resumes_at_a_later_brace() {
    // `{` is no path character: the token starts at the second brace.
    let toks = find_tokens("{a{b#c}", QueryLanguage::XPath);
    assert_eq!(toks.len(), 1);
    assert_eq!(toks[0].open, 2);
    assert_eq!(toks[0].resource, "b");
    assert_eq!(toks[0].expression, "c");
}

#[test]
fn path_characters() {
    let toks = find_tokens("{my-strings~1:a\\b/c.xml#/a} {-#/a}", QueryLanguage::XPath);
    assert_eq!(toks.len(), 2);
    assert_eq!(toks[0].resource, "my-strings~1:a\\b/c.xml");
    assert_eq!(toks[1].resource, "-");
    for text in ["{a}b#/c}", "{a[b#/c}", "{a@b#/c}", "{a<b#/c}", "{a|b#/c}", "{x\u{b2}#/a}"] {
        assert!(find_tokens(text, QueryLanguage::XPath).is_empty(), "{}", text);
    }
}

#[test]
fn word_characters_follow_the_unicode_word_class() {
    let toks = find_tokens("{cafe\u{301}.xml#/a} {a\u{203f}b#/a}", QueryLanguage::XPath);
    assert_eq!(toks.len(), 2);
    assert_eq!(toks[0].resource, "cafe\u{301}.xml");
    assert_eq!(toks[1].resource, "a\u{203f}b");
}

#[test]
fn scan_rejects_incomplete_tokens() {
    for text in ["", "{}", "{#}", "{a#}", "{#b}", "{a#b", "a#b}", "{a b#c}", "{a«b#c}"] {
        assert!(find_tokens(text, QueryLanguage::XPath).is_empty(), "{}", text);
    }
}

#[test]
fn grammars_differ_in_their_query_characters() {
    let text = "{d.json#$.a[?(@.n > 1)]} {d.xml#/a/b}";
    let json = find_tokens(text, QueryLanguage::JsonPath);
    assert_eq!(json.len(), 1);
    assert_eq!(json[0].expression, "$.a[?(@.n > 1)]");
    let xml = find_tokens(text, QueryLanguage::XPath);
    assert_eq!(xml.len(), 1);
    assert_eq!(xml[0].expression, "/a/b");
}

#[test]
fn scan_counts_chars_not_bytes() {
    let toks = find_tokens("é{résumé.xml#/a}", QueryLanguage::XPath);
    assert_eq!(toks.len(), 1);
    assert_eq!((toks[0].open, toks[0].hash, toks[0].close), (1, 12, 15));
    assert_eq!(toks[0].resource, "résumé.xml");
}

#[test]
fn substitute_replaces_each_token() {
    let text = "x{a#b}y{c#d}z";
    let toks = find_tokens(text, QueryLanguage::XPath);
    let out = substitute(text, &toks, &vec!["1".to_string(), "{e#f}".to_string()]);
    assert_eq!(out, "x1y{e#f}z");
}

#[test]
fn xpath_value_is_string_of_first_node() {
    let r = evaluate_query(QueryLanguage::XPath, DOC_XML, "/Resources/Strings/*");
    assert_eq!(r, Ok("Hi!".to_string()));
    let r = evaluate_query(QueryLanguage::XPath, DOC_XML, "/Resources/Strings");
    assert_eq!(r, Ok("Hi!Byebye!".to_string()));
}

#[test]
fn xpath_number_and_empty_results() {
    let r = evaluate_query(QueryLanguage::XPath, DOC_XML, "count(/Resources/Strings/*)");
    assert_eq!(r, Ok("2".to_string()));
    let r = evaluate_query(QueryLanguage::XPath, DOC_XML, "/Resources/Nothing");
    assert_eq!(r, Ok(String::new()));
}

#[test]
fn xpath_errors() {
    assert_eq!(evaluate_query(QueryLanguage::XPath, "<a><b></a>", "/a"), Err(ReplaceError::Parse));
    assert_eq!(evaluate_query(QueryLanguage::XPath, DOC_XML, "/Resources["), Err(ReplaceError::Query));
    assert_eq!(evaluate_query(QueryLanguage::XPath, DOC_XML, "/ns:Resources"), Err(ReplaceError::Query));
    assert_eq!(evaluate_query(QueryLanguage::XPath, DOC_XML, ""), Err(ReplaceError::Query));
}

#[test]
fn xpath_colon_inside_a_literal_is_not_a_prefix() {
    let doc = r#"<a b="x:y">v</a>"#;
    assert_eq!(evaluate_query(QueryLanguage::XPath, doc, "/a[@b='x:y']"), Ok("v".to_string()));
    assert_eq!(evaluate_query(QueryLanguage::XPath, doc, "/a[@b=\"x:y\"]"), Ok("v".to_string()));
    let replaced = XmlReplacer.replace(
        &"{a.xml#/a[@b='x:y']}".to_string(),
        &vec![Resource { path: "a.xml".to_string(), content: doc.to_string() }],
    );
    assert_eq!(replaced, Ok("v".to_string()));
}

#[test]
fn document_is_parsed_before_the_query_is_judged() {
    assert_eq!(evaluate_query(QueryLanguage::XPath, "<a><b></a>", "/a:b"), Err(ReplaceError::Parse));
    let q = "$.Bye[?($.Count > 1)]";
    assert_eq!(evaluate_query(QueryLanguage::JsonPath, "{\"Bye\": ", q), Err(ReplaceError::Parse));
}

#[test]
fn xpath_axis_is_not_a_prefix() {
    let r = evaluate_query(QueryLanguage::XPath, DOC_XML, "/child::Resources/Strings/Bye");
    assert_eq!(r, Ok("Byebye!".to_string()));
}

#[test]
fn jsonpath_values() {
    assert_eq!(evaluate_query(QueryLanguage::JsonPath, DOC_JSON, "$.Hello"), Ok("Hi!".to_string()));
    assert_eq!(evaluate_query(QueryLanguage::JsonPath, DOC_JSON, "$.Bye[0]"), Ok("Byebye!".to_string()));
    assert_eq!(evaluate_query(QueryLanguage::JsonPath, DOC_JSON, "$.Bye.*"), Ok("Byebye!".to_string()));
}

#[test]
fn jsonpath_errors() {
    assert_eq!(evaluate_query(QueryLanguage::JsonPath, "{", "$.a"), Err(ReplaceError::Parse));
    assert_eq!(evaluate_query(QueryLanguage::JsonPath, DOC_JSON, "Hello"), Err(ReplaceError::Query));
    assert_eq!(evaluate_query(QueryLanguage::JsonPath, DOC_JSON, "$.Missing"), Err(ReplaceError::NoMatch));
    assert_eq!(evaluate_query(QueryLanguage::JsonPath, DOC_JSON, "$.Count"), Err(ReplaceError::NotText));
}

#[test]
fn jsonpath_queries_the_engine_cannot_take_are_refused() {
    let q = "$.a[?(@.n < 1234567890123456789012)]";
    assert_eq!(evaluate_query(QueryLanguage::JsonPath, DOC_JSON, q), Err(ReplaceError::Query));
    let q = "$.Bye[?($.Count > 1)]";
    assert_eq!(evaluate_query(QueryLanguage::JsonPath, DOC_JSON, q), Err(ReplaceError::Query));
    let q = "$.Bye[?(@.n >  9223372036854775808)]";
    assert_eq!(evaluate_query(QueryLanguage::JsonPath, DOC_JSON, q), Err(ReplaceError::Query));
}

#[test]
fn jsonpath_large_numbers_that_fit_are_evaluated() {
    let doc = r#"{"a": [{"n": 5, "s": "x"}, {"n": 7, "s": "y"}]}"#;
    let q = "$.a[?(@.n < 1000000000000000000)].s";
    assert_eq!(evaluate_query(QueryLanguage::JsonPath, doc, q), Ok("x".to_string()));
    let q = "$.a[?(@.n < 9223372036854775807)].s";
    assert_eq!(evaluate_query(QueryLanguage::JsonPath, doc, q), Ok("x".to_string()));
    let q = "$.a12345678901234567890123";
    assert_eq!(evaluate_query(QueryLanguage::JsonPath, doc, q), Err(ReplaceError::NoMatch));
}

#[test]
fn jsonpath_root_filter_with_equality_is_evaluated() {
    let doc = r#"{"k": "x", "a": ["p", "q"]}"#;
    let q = "$.a[?($.k == 'x')]";
    assert_eq!(evaluate_query(QueryLanguage::JsonPath, doc, q), Ok("p".to_string()));
}

#[test]
fn later_non_string_matches_are_ignored() {
    let doc = r#"{"a": ["x", 1]}"#;
    assert_eq!(evaluate_query(QueryLanguage::JsonPath, doc, "$.a.*"), Ok("x".to_string()));
}

#[test]
fn first_match_policy() {
    assert_eq!(first_match_text(vec![]), Err(ReplaceError::NoMatch));
    assert_eq!(first_match_text(vec![None, Some("w".to_string())]), Err(ReplaceError::NotText));
    assert_eq!(first_match_text(vec![Some("v".to_string()), None]), Ok("v".to_string()));
    assert_eq!(
        first_match_text(vec![Some("v".to_string()), Some("w".to_string())]),
        Ok("v".to_string())
    );
}

#[test]
fn config_defaults() {
    let c = Config::new(&["prog".to_string()], "/work".to_string()).unwrap();
    assert_eq!(c.dir, "/work");
    assert_eq!(c.extension, ".template");
    assert_eq!(c.replacers, vec![QueryLanguage::XPath, QueryLanguage::JsonPath]);
}

#[test]
fn config_from_arguments() {
    let args = ["prog".to_string(), "dir".to_string(), ".tpl".to_string()];
    let c = Config::new(&args, "/work".to_string()).unwrap();
    assert_eq!(c.dir, "dir");
    assert_eq!(c.extension, ".tpl");
}

#[test]
fn output_names() {
    let c = Config::new(&["prog".to_string()], "/work".to_string()).unwrap();
    assert_eq!(c.output_name("greeting.template"), Some("greeting".to_string()));
    assert_eq!(c.output_name("greeting.xml"), None);
    assert_eq!(c.output_name("template"), None);
    assert_eq!(c.output_name(".template"), Some(String::new()));
    assert_eq!(c.output_name("a.template.bak"), None);
}

#[test]
fn end_to_end_greeting() {
    let c = Config::new(&["prog".to_string()], "/work".to_string()).unwrap();
    let resources = vec![Resource {
        path: "greeting.xml".to_string(),
        content: "<Resources><Strings><Bye>Byebye!</Bye></Strings></Resources>".to_string(),
    }];
    assert_eq!(c.output_name("greeting.xml"), None);
    let out = c.output_name("greeting.template").unwrap();
    assert_eq!(out, "greeting");
    let template = "{greeting.xml#/Resources/Strings/Bye}".to_string();
    assert_eq!(apply(&c.replacers, &template, &resources), Ok("Byebye!".to_string()));
}

#[test]
fn markup_resolver_runs_first() {
    let resources = vec![
        Resource { path: "r.xml".to_string(), content: "<Bye>xml</Bye>".to_string() },
        Resource { path: "r.json".to_string(), content: r#"{"Bye": "json"}"#.to_string() },
    ];
    let langs = vec![QueryLanguage::XPath, QueryLanguage::JsonPath];
    let text = "{r.xml#Bye} {r.json#$.Bye}".to_string();
    assert_eq!(apply(&langs, &text, &resources), Ok("xml json".to_string()));
    // A query valid in both grammars is claimed by the replacer that runs first.
    let text = "{r.xml#/Bye}{r.xml#Bye}".to_string();
    assert_eq!(apply(&langs, &text, &resources), Ok("xmlxml".to_string()));
    let reversed = vec![QueryLanguage::JsonPath, QueryLanguage::XPath];
    assert_eq!(apply(&reversed, &"{r.xml#Bye}".to_string(), &resources), Err(ReplaceError::Parse));
}

#[test]
fn pipeline_stops_at_first_error() {
    let langs = vec![QueryLanguage::XPath, QueryLanguage::JsonPath];
    let resources = vec![Resource { path: "r.json".to_string(), content: r#"{"a": "b"}"#.to_string() }];
    let text = "{r.json#$.a} {gone.xml#/a}".to_string();
    assert_eq!(apply(&langs, &text, &resources), Err(ReplaceError::ResourceRead));
    assert_eq!(apply(&Vec::new(), &text, &resources), Ok(text.clone()));
}
