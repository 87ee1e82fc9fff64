use chrono::Datelike;
use fake::Fake;
use jsoned::fake_data::{parse, tokenize, FakeError, FakePlugin, Token};
use jsoned::tree::{JNode, JScalar};

/// Draws a float of `min..max` the way the plugin front end does.
fn float_text(min: &str, max: &str) -> String {
    let a: f64 = min.parse().unwrap();
    let b: f64 = max.parse().unwrap();
    let v: f64 = (a..b).fake();
    serde_json::Number::from_f64(v).map(|n| n.to_string()).unwrap_or_else(|| "0".to_string())
}

fn generate(spec: &jsoned::fake_data::FakeSpec) -> Result<JNode, FakeError> {
    jsoned::fake_data::generate(spec, &float_text, chrono::Utc::now().year())
}

fn text(n: &JNode) -> &str {
    match n {
        JNode::Scalar(JScalar::String(s)) => s.as_str(),
        other => panic!("expected a string, got {other:?}"),
    }
}

fn entries(n: &JNode) -> &Vec<(String, JNode)> {
    match n {
        JNode::Object { entries, .. } => entries,
        other => panic!("expected an object, got {other:?}"),
    }
}

fn items(n: &JNode) -> &Vec<JNode> {
    match n {
        JNode::Array { items, .. } => items,
        other => panic!("expected an array, got {other:?}"),
    }
}

fn get<'a>(n: &'a JNode, key: &str) -> &'a JNode {
    &entries(n).iter().find(|(k, _)| k == key).unwrap().1
}

#[test]
fn scalar_leaf() {
    let out = generate(&parse("email").unwrap()).unwrap();
    assert!(text(&out).contains('@'));
}

#[test]
fn array_of_objects_has_shape_and_count() {
    let out = generate(&parse("[3] { name, email }").unwrap()).unwrap();
    let arr = items(&out);
    assert_eq!(arr.len(), 3);
    for item in arr {
        assert!(!text(get(item, "name")).is_empty());
        assert!(text(get(item, "email")).contains('@'));
    }
}

#[test]
fn nested_object_derives_recursively() {
    let out = generate(&parse("{ user: { name, email }, tags: [2] word }").unwrap()).unwrap();
    assert!(entries(get(&out, "user")).iter().any(|(k, _)| k == "name"));
    assert_eq!(items(get(&out, "tags")).len(), 2);
}

#[test]
fn object_preserves_field_order() {
    let out = generate(&parse("{ b: word, a: word, c: word }").unwrap()).unwrap();
    let keys: Vec<&str> = entries(&out).iter().map(|(k, _)| k.as_str()).collect();
    assert_eq!(keys, vec!["b", "a", "c"]);
}

#[test]
fn number_respects_inclusive_bounds() {
    let spec = parse("number(18,65)").unwrap();
    for _ in 0..100 {
        let n: i64 = match generate(&spec).unwrap() {
            JNode::Scalar(JScalar::Number(t)) => t.parse().unwrap(),
            other => panic!("expected a number, got {other:?}"),
        };
        assert!((18..=65).contains(&n), "{n} out of bounds");
    }
}

#[test]
fn bool_extreme_percentages_are_deterministic() {
    let always_true = parse("bool(100)").unwrap();
    let always_false = parse("bool(0)").unwrap();
    for _ in 0..50 {
        assert_eq!(generate(&always_true).unwrap(), JNode::Scalar(JScalar::Bool(true)));
        assert_eq!(generate(&always_false).unwrap(), JNode::Scalar(JScalar::Bool(false)));
    }
}

#[test]
fn zero_count_array_is_empty() {
    let out = generate(&parse("[0] name").unwrap()).unwrap();
    assert!(items(&out).is_empty());
}

#[test]
fn nested_array_of_array_works() {
    let out = generate(&parse("[2] [3] word").unwrap()).unwrap();
    let outer = items(&out);
    assert_eq!(outer.len(), 2);
    assert_eq!(items(&outer[0]).len(), 3);
}

#[test]
fn unmatched_brace_is_a_parse_error() {
    assert!(parse("{ name, email").is_err());
}

#[test]
fn negative_array_count_is_a_parse_error() {
    assert!(parse("[-1] name").is_err());
}

#[test]
fn trailing_input_is_a_parse_error() {
    assert!(parse("name extra").is_err());
}

#[test]
fn unknown_type_is_a_generate_error() {
    let spec = parse("bogus_type").unwrap();
    assert!(generate(&spec).is_err());
}

#[test]
fn wrong_arg_count_is_a_generate_error() {
    let spec = parse("number(1,2,3)").unwrap();
    assert!(generate(&spec).is_err());
}

#[test]
fn fr_locale_applies_to_whitelisted_leaves() {
    let out = generate(&parse("{ name: name@fr, phone: phone@fr }").unwrap()).unwrap();
    assert!(!text(get(&out, "name")).is_empty());
    assert!(!text(get(&out, "phone")).is_empty());
}

#[test]
fn fr_locale_on_unsupported_leaf_is_a_generate_error() {
    let spec = parse("city@fr").unwrap();
    let err = generate(&spec).unwrap_err().message();
    assert!(err.contains("no localized data"), "unexpected error: {err}");
}

#[test]
fn unknown_locale_is_a_generate_error() {
    let spec = parse("name@es").unwrap();
    let err = generate(&spec).unwrap_err().message();
    assert!(err.contains("unknown locale"), "unexpected error: {err}");
}

#[test]
fn date_default_format_is_iso() {
    let out = generate(&parse("date").unwrap()).unwrap();
    let s = text(&out).to_string();
    assert_eq!(s.len(), 10, "expected YYYY-MM-DD, got '{s}'");
    assert_eq!(s.as_bytes()[4], b'-');
    assert_eq!(s.as_bytes()[7], b'-');
}

#[test]
fn date_fr_format_is_ddmmyyyy() {
    let out = generate(&parse("date@fr").unwrap()).unwrap();
    let s = text(&out).to_string();
    assert_eq!(s.len(), 10, "expected DD/MM/YYYY, got '{s}'");
    assert_eq!(s.as_bytes()[2], b'/');
    assert_eq!(s.as_bytes()[5], b'/');
}

#[test]
fn date_respects_year_range() {
    let spec = parse("date(2000,2001)").unwrap();
    for _ in 0..50 {
        let out = generate(&spec).unwrap();
        let s = text(&out);
        let year: i32 = s[0..4].parse().unwrap();
        assert!((2000..=2001).contains(&year), "{s} out of range");
    }
}

#[test]
fn datetime_fr_format_has_slashes_and_time() {
    let out = generate(&parse("datetime@fr").unwrap()).unwrap();
    let s = text(&out).to_string();
    assert!(s.contains('/'), "expected DD/MM/YYYY prefix in '{s}'");
    assert!(s.contains(':'), "expected HH:MM:SS suffix in '{s}'");
}

#[test]
fn run_fake_ignores_input_node() {
    let plugin = FakePlugin;
    let input = JNode::Object {
        entries: vec![("unrelated".to_string(), JNode::Scalar(JScalar::Bool(true)))],
        collapsed: false,
    };
    let out = plugin.run(&input, "email", &float_text, 2024).unwrap();
    match out {
        JNode::Scalar(JScalar::String(s)) => assert!(s.contains('@')),
        _ => panic!("expected a string scalar"),
    }
}

// ---- further cases ----

#[test]
fn tokenizer_reads_punctuation_names_and_numbers() {
    let toks = tokenize("[2]{a:b@fr}(1.5,3)").unwrap();
    assert_eq!(
        toks,
        vec![
            Token::LBracket,
            Token::Num("2".into()),
            Token::RBracket,
            Token::LBrace,
            Token::Ident("a".into()),
            Token::Colon,
            Token::Ident("b".into()),
            Token::At,
            Token::Ident("fr".into()),
            Token::RBrace,
            Token::LParen,
            Token::Num("1.5".into()),
            Token::Comma,
            Token::Num("3".into()),
            Token::RParen,
        ]
    );
}

#[test]
fn tokenizer_rejects_stray_characters() {
    assert_eq!(tokenize("name!"), Err(FakeError::UnexpectedChar('!')));
}

#[test]
fn error_messages_name_the_problem() {
    assert_eq!(parse("").unwrap_err().message(), "fake parse error: empty expression");
    assert_eq!(parse("[-1] name").unwrap_err().message(), "fake parse error: unexpected character '-'");
    assert_eq!(
        parse("[1.5] name").unwrap_err().message(),
        "fake parse error: array count must be a non-negative integer, got 1.5"
    );
    let spec = parse("number(5,1)").unwrap();
    assert_eq!(generate(&spec).unwrap_err().message(), "fake error: 'number' min must be <= max, got (5, 1)");
    let spec = parse("bool(101)").unwrap();
    assert_eq!(
        generate(&spec).unwrap_err().message(),
        "fake error: 'bool' percentage must be between 0 and 100, got 101"
    );
    let spec = parse("words(1,2)").unwrap();
    assert_eq!(generate(&spec).unwrap_err().message(), "fake error: 'words' takes 0 or 1 argument, got 2");
    assert_eq!(
        parse("{ a: }").unwrap_err().message(),
        "fake parse error: unexpected token RBrace"
    );
}

#[test]
fn plugin_name_and_prompt() {
    assert_eq!(FakePlugin.name(), "fake");
    assert_eq!(FakePlugin.prompt(), "fake spec (e.g. {name, email}, [5]name, name@fr):");
}

#[test]
fn words_count_is_respected() {
    let out = generate(&parse("words(4)").unwrap()).unwrap();
    assert_eq!(text(&out).split(' ').count(), 4);
}

#[test]
fn float_uses_the_drawn_text() {
    let out = generate(&parse("float(2,3)").unwrap()).unwrap();
    match out {
        JNode::Scalar(JScalar::Number(t)) => {
            let v: f64 = t.parse().unwrap();
            assert!((2.0..3.0).contains(&v));
        }
        other => panic!("expected a number, got {other:?}"),
    }
}

#[test]
fn address_and_url_have_their_layout() {
    let a = generate(&parse("address").unwrap()).unwrap();
    let t = text(&a);
    assert!(t.contains(", "), "no ', ' in '{t}'");
    assert!(t.split(", ").next().unwrap().contains(' '), "no building and street in '{t}'");
    let u = generate(&parse("url").unwrap()).unwrap();
    let t = text(&u);
    assert!(t.starts_with("https://") && t["https://".len()..].contains('.'), "bad url '{t}'");
}

#[test]
fn default_date_years_are_the_last_twenty() {
    let now = chrono::Utc::now().year();
    let spec = parse("date").unwrap();
    for _ in 0..50 {
        let out = generate(&spec).unwrap();
        let year: i32 = text(&out)[0..4].parse().unwrap();
        assert!((now - 20..=now).contains(&year), "{year} outside the last twenty years");
    }
}

#[test]
fn dates_default_to_the_twenty_years_up_to_the_given_year() {
    for _ in 0..50 {
        let spec = parse("[3] { d: date, f: date@fr, t: datetime }").unwrap();
        let out = jsoned::fake_data::generate(&spec, &float_text, 2000).unwrap();
        for item in items(&out) {
            let d = text(get(item, "d"));
            let year: i32 = d[0..4].parse().unwrap();
            assert!((1980..=2000).contains(&year), "{d}");
            assert_eq!(d.len(), 10);
            let f = text(get(item, "f"));
            let fyear: i32 = f[6..10].parse().unwrap();
            assert!((1980..=2000).contains(&fyear), "{f}");
            let t = text(get(item, "t"));
            assert!(t.ends_with('Z') && t.len() == 20, "{t}");
        }
    }
}

#[test]
fn emails_are_at_example_domains() {
    for _ in 0..50 {
        let out = generate(&parse("email").unwrap()).unwrap();
        let e = text(&out);
        assert!(
            e.ends_with("@example.com") || e.ends_with("@example.net") || e.ends_with("@example.org"),
            "{e}"
        );
    }
}

#[test]
fn french_names_and_phones_are_not_empty() {
    for _ in 0..20 {
        let out = generate(&parse("{ a: name@fr, b: first_name@fr, c: last_name@fr, d: phone@fr }").unwrap()).unwrap();
        for key in ["a", "b", "c", "d"] {
            assert!(!text(get(&out, key)).is_empty());
        }
    }
}

#[test]
fn date_texts_have_fixed_fields() {
    for _ in 0..30 {
        let out = generate(&parse("{ a: date(5, 9), b: date(2020, 2020)@fr, c: datetime(1999, 1999) }").unwrap()).unwrap();
        let a = text(get(&out, "a"));
        assert!(a.starts_with("000") && a.len() == 10 && &a[4..5] == "-" && &a[7..8] == "-", "{a}");
        let b = text(get(&out, "b"));
        assert!(b.ends_with("/2020") && b.len() == 10 && &b[2..3] == "/", "{b}");
        let c = text(get(&out, "c"));
        assert!(c.starts_with("1999-") && c.len() == 20 && &c[10..11] == "T" && c.ends_with('Z'), "{c}");
    }
}

#[test]
fn sentences_and_paragraphs_have_the_asked_counts() {
    for _ in 0..20 {
        let out = generate(&parse("{ s: sentence(5), p: paragraph(3), z: sentence(0) }").unwrap()).unwrap();
        let s = text(get(&out, "s"));
        assert!(s.ends_with('.'), "{s}");
        assert_eq!(s[..s.len() - 1].split(' ').count(), 5, "{s}");
        let p = text(get(&out, "p"));
        let lines: Vec<&str> = p.split('\n').collect();
        assert_eq!(lines.len(), 3, "{p}");
        for l in lines {
            let words = l[..l.len() - 1].split(' ').count();
            assert!(l.ends_with('.') && (4..=9).contains(&words), "{l}");
        }
        assert_eq!(text(get(&out, "z")), ".");
    }
}

#[test]
fn uuids_are_version_four_hyphenated_lower_hex() {
    for _ in 0..20 {
        let out = generate(&parse("uuid").unwrap()).unwrap();
        let u: Vec<char> = text(&out).chars().collect();
        assert_eq!(u.len(), 36);
        for (i, c) in u.iter().enumerate() {
            if [8, 13, 18, 23].contains(&i) {
                assert_eq!(*c, '-');
            } else {
                assert!(c.is_ascii_hexdigit() && !c.is_ascii_uppercase());
            }
        }
        assert_eq!(u[14], '4');
        assert!(['8', '9', 'a', 'b'].contains(&u[19]));
    }
}
