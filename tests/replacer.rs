use xpljn::{ExpressionReplacer, JsonReplacer, ReplaceError, Resource, XmlReplacer};

fn lines(ls: &[&str]) -> String {
    let mut s = String::new();
    for l in ls {
        s.push_str(l);
        s.push('\n');
    }
    s
}

fn table(path: &str, content: String) -> Vec<Resource> {
    vec![Resource { path: path.to_string(), content }]
}

fn xml_two_strings(first_attr: &str, second_attr: &str) -> String {
    lines(&[
        r#"<?xml version="1.0" encoding="UTF-8" ?>"#,
        r#"<Resources>"#,
        &format!("  <Strings{}>", first_attr),
        r#"    <Hello>Hi!</Hello>"#,
        r#"    <Bye>Byebye!</Bye>"#,
        r#"  </Strings>"#,
        &format!("  <Strings{}>", second_attr),
        r#"    <Hello>Ossu!</Hello>"#,
        r#"    <Bye>Ja ne!</Bye>"#,
        r#"  </Strings>"#,
        r#"</Resources>"#,
    ])
}

#[test]
fn test_xml_replacer() {
    let file_path_str = "/tmp/resources/test.xml";
    let content = lines(&[
        r#"<?xml version="1.0" encoding="UTF-8" ?>"#,
        r#"<Resources>"#,
        r#"  <Strings>"#,
        r#"    <Hello>Hi!</Hello>"#,
        r#"    <Bye>Byebye!</Bye>"#,
        r#"  </Strings>"#,
        r#"</Resources>"#,
    ]);
    let xpath = "/Resources/Strings/Bye";
    let contents = format!("let label = '{{{}#{}}}'", file_path_str, xpath);
    let replaced = XmlReplacer.replace(&contents, &table(file_path_str, content));
    assert_eq!(replaced, Ok("let label = 'Byebye!'".to_string()));
}

#[test]
fn test_json_replacer() {
    let file_path_str = "/tmp/resources/test.json";
    let content = lines(&[r#"{"#, r#"  "Hello": "Hi!", "#, r#"  "Bye": "Byebye!""#, r#"}"#]);
    let jsonpath = "$.Bye";
    let contents = format!("let label = '{{{}#{}}}'", file_path_str, jsonpath);
    let replaced = JsonReplacer.replace(&contents, &table(file_path_str, content));
    assert_eq!(replaced, Ok("let label = 'Byebye!'".to_string()));
}

#[test]
fn test_json_replacer_with_array() {
    let file_path_str = "/tmp/resources/test.json";
    let content = lines(&[
        r#"{"#,
        r#"  "Hello": "Hi!", "#,
        r#"  "Bye": ["Byebye!", "Ja ne!"]"#,
        r#"}"#,
    ]);
    let jsonpath = "$.Bye[1]";
    let contents = format!("let label = '{{{}#{}}}'", file_path_str, jsonpath);
    let replaced = JsonReplacer.replace(&contents, &table(file_path_str, content));
    assert_eq!(replaced, Ok("let label = 'Ja ne!'".to_string()));
}

#[test]
fn test_xml_replacer_with_array() {
    let file_path_str = "/tmp/resources/test.xml";
    let content = xml_two_strings("", "");
    let xpath = "/Resources/Strings[2]/Bye";
    let contents = format!("let label = '{{{}#{}}}'", file_path_str, xpath);
    let replaced = XmlReplacer.replace(&contents, &table(file_path_str, content));
    assert_eq!(replaced, Ok("let label = 'Ja ne!'".to_string()));
}

#[test]
fn test_json_replacer_with_deeply_nested_path() {
    let file_path_str = "/tmp/resources/test.json";
    let content = lines(&[
        r#"{"#,
        r#"  "Hello": "Hi!", "#,
        r#"  "Bye": {"#,
        r#"    "Hello": "Byebye!", "#,
        r#"    "Bye": {"#,
        r#"      "Hello": "Ja ne!""#,
        r#"    }"#,
        r#"  }"#,
        r#"}"#,
    ]);
    let jsonpath = "$.Bye.Bye.Hello";
    let contents = format!("let label = '{{{}#{}}}'", file_path_str, jsonpath);
    let replaced = JsonReplacer.replace(&contents, &table(file_path_str, content));
    assert_eq!(replaced, Ok("let label = 'Ja ne!'".to_string()));
}

#[test]
fn test_xml_replacer_with_attribute_selector() {
    let file_path_str = "/tmp/resources/test.xml";
    let content = xml_two_strings(r#" lang="en""#, r#" lang="jp""#);
    let xpath = "/Resources/Strings[@lang='jp']/Bye";
    let contents = format!("let label = '{{{}#{}}}'", file_path_str, xpath);
    let replaced = XmlReplacer.replace(&contents, &table(file_path_str, content));
    assert_eq!(replaced, Ok("let label = 'Ja ne!'".to_string()));
}

#[test]
fn test_xml_replacer_with_multiple_matches() {
    let file_path_str = "/tmp/resources/test.xml";
    let content = xml_two_strings(r#" lang="en""#, r#" lang="jp""#);
    let xpath = "/Resources/Strings/Bye";
    let contents = format!("let label = '{{{}#{}}}'", file_path_str, xpath);
    let replaced = XmlReplacer.replace(&contents, &table(file_path_str, content));
    assert_eq!(replaced, Ok("let label = 'Byebye!'".to_string()), "Should use first match");
}

#[test]
fn nested_levels_of_one_document_resolve_independently() {
    let content = lines(&[
        r#"{"#,
        r#"  "Hello": "Hi!", "#,
        r#"  "Bye": {"#,
        r#"    "Hello": "Byebye!", "#,
        r#"    "Bye": {"#,
        r#"      "Hello": "Ja ne!""#,
        r#"    }"#,
        r#"  }"#,
        r#"}"#,
    ]);
    let contents = "{r.json#$.Hello} / {r.json#$.Bye.Hello} / {r.json#$.Bye.Bye.Hello}".to_string();
    let replaced = JsonReplacer.replace(&contents, &table("r.json", content));
    assert_eq!(replaced, Ok("Hi! / Byebye! / Ja ne!".to_string()));
}

#[test]
fn attribute_predicate_picks_only_its_branch() {
    let content = xml_two_strings(r#" lang="en""#, r#" lang="jp""#);
    let contents = "{t.xml#/Resources/Strings[@lang='en']/Hello},{t.xml#/Resources/Strings[@lang='jp']/Hello}".to_string();
    let replaced = XmlReplacer.replace(&contents, &table("t.xml", content));
    assert_eq!(replaced, Ok("Hi!,Ossu!".to_string()));
}

#[test]
fn missing_resource_is_a_read_error() {
    let contents = "a {missing.xml#/Resources} b".to_string();
    let replaced = XmlReplacer.replace(&contents, &Vec::new());
    assert_eq!(replaced, Err(ReplaceError::ResourceRead));
}

#[test]
fn error_of_first_failing_token_is_returned() {
    let contents = "{gone.json#$.a} {bad.json#$.a}".to_string();
    let replaced = JsonReplacer.replace(&contents, &table("bad.json", "{".to_string()));
    assert_eq!(replaced, Err(ReplaceError::ResourceRead));
    let contents = "{bad.json#$.a} {gone.json#$.a}".to_string();
    let replaced = JsonReplacer.replace(&contents, &table("bad.json", "{".to_string()));
    assert_eq!(replaced, Err(ReplaceError::Parse));
}

#[test]
fn text_without_tokens_is_unchanged() {
    let contents = "no tokens {here} or #there# {a#}".to_string();
    assert_eq!(XmlReplacer.replace(&contents, &Vec::new()), Ok(contents.clone()));
    assert_eq!(JsonReplacer.replace(&contents, &Vec::new()), Ok(contents.clone()));
    assert_eq!(XmlReplacer.replace(&String::new(), &Vec::new()), Ok(String::new()));
}

#[test]
fn inserted_value_is_not_scanned_again() {
    let content = "<r><v>{r.xml#/r/w}</v><w>deep</w></r>".to_string();
    let contents = "[{r.xml#/r/v}]".to_string();
    let replaced = XmlReplacer.replace(&contents, &table("r.xml", content));
    assert_eq!(replaced, Ok("[{r.xml#/r/w}]".to_string()));
}

#[test]
fn repeated_tokens_are_all_replaced() {
    let content = "<r>x</r>".to_string();
    let contents = "{r.xml#/r}{r.xml#/r}-{r.xml#/r}".to_string();
    let replaced = XmlReplacer.replace(&contents, &table("r.xml", content));
    assert_eq!(replaced, Ok("xx-x".to_string()));
}

#[test]
fn first_resource_of_a_path_is_used() {
    let resources = vec![
        Resource { path: "r.xml".to_string(), content: "<r>one</r>".to_string() },
        Resource { path: "r.xml".to_string(), content: "<r>two</r>".to_string() },
    ];
    let contents = "{r.xml#/r}".to_string();
    assert_eq!(XmlReplacer.replace(&contents, &resources), Ok("one".to_string()));
}

#[test]
fn non_ascii_text_around_tokens_is_kept() {
    let content = "<r><ja>さようなら</ja></r>".to_string();
    let contents = "«{r.xml#/r/ja}» ✓".to_string();
    let replaced = XmlReplacer.replace(&contents, &table("r.xml", content));
    assert_eq!(replaced, Ok("«さようなら» ✓".to_string()));
}

#[test]
fn replacing_two_halves_apart_equals_replacing_the_whole() {
    let resources = table("r.xml", "<r><a>1</a><b>2</b></r>".to_string());
    let x = "head {r.xml#/r/a} mid ".to_string();
    let y = "{r.xml#/r/b} tail".to_string();
    let whole = format!("{}{}", x, y);
    let rx = XmlReplacer.replace(&x, &resources).unwrap();
    let ry = XmlReplacer.replace(&y, &resources).unwrap();
    assert_eq!(XmlReplacer.replace(&whole, &resources), Ok(format!("{}{}", rx, ry)));
    assert_eq!(rx, "head 1 mid ");
}
