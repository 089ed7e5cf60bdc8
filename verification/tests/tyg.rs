use type_forge::{
    add_piped_samples, clean_xml_value, code_for_samples, detect_format, file_format, generate,
    merge, merge_samples, parse_all, parse_to_json, sample_text, source_plan, Cli, CliError,
    Format, JsonValue, SourcePlan, TargetMode,
};

fn num(x: &str) -> JsonValue {
    JsonValue::Number(x.to_string())
}

fn text(x: &str) -> JsonValue {
    JsonValue::Str(x.to_string())
}

fn obj(entries: Vec<(&str, JsonValue)>) -> JsonValue {
    JsonValue::Object(entries.into_iter().map(|(k, v)| (k.to_string(), v)).collect())
}

fn arr(items: Vec<JsonValue>) -> JsonValue {
    JsonValue::Array(items)
}

fn cli_with(name: &str, lang: TargetMode, format: Option<Format>) -> Cli {
    Cli {
        sources: Vec::new(),
        url: Vec::new(),
        format,
        name: name.to_string(),
        lang,
    }
}

/// The pipeline for piped input: read, merge, generate.
fn run_piped(input: &str, cli: &Cli) -> Result<Option<String>, CliError> {
    let mut samples = Vec::new();
    add_piped_samples(&mut samples, cli, input)?;
    code_for_samples(cli, samples)
}

const JSON: &str = r#"{"name":"foo","count":42}"#;

// ---- code generation ----

#[test]
fn generate_rust() {
    let v = parse_to_json(JSON, Format::Json).unwrap();
    let code = generate("Test", &v, TargetMode::Rust).unwrap();

    assert!(code.contains("struct Test"));
    assert!(code.contains("name: String"));
}

#[test]
fn generate_typescript() {
    let v = parse_to_json(JSON, Format::Json).unwrap();
    let code = generate("Test", &v, TargetMode::Typescript).unwrap();

    assert!(code.contains("interface Test"));
    assert!(code.contains("name: string"));
}

#[test]
fn generate_typescript_typealias() {
    let v = parse_to_json(JSON, Format::Json).unwrap();
    let code = generate("Test", &v, TargetMode::TypescriptTypeAlias).unwrap();

    assert!(code.contains("type Test"));
}

#[test]
fn generate_json_schema() {
    let v = parse_to_json(JSON, Format::Json).unwrap();
    let code = generate("Test", &v, TargetMode::JsonSchema).unwrap();

    assert!(code.contains("\"type\""));
    assert!(code.contains("Test"));
}

#[test]
fn generate_kotlin() {
    let v = parse_to_json(JSON, Format::Json).unwrap();
    let code = generate("Test", &v, TargetMode::KotlinJackson).unwrap();

    assert!(code.contains("class Test"));
}

#[test]
fn generate_empty_object() {
    let v = obj(vec![]);
    let code = generate("Empty", &v, TargetMode::Rust).unwrap();

    assert!(code.contains("struct Empty"));
}

#[test]
fn generate_kotlinx_and_shape() {
    let v = parse_to_json(JSON, Format::Json).unwrap();
    let code = generate("Test", &v, TargetMode::KotlinKotlinx).unwrap();
    assert!(code.contains("class Test"));
    let shape = generate("Test", &v, TargetMode::Shape).unwrap();
    assert!(shape.contains("name"));
}

#[test]
fn generate_sees_every_field() {
    let v = obj(vec![("alpha", num("1")), ("beta_field", arr(vec![text("x")]))]);
    let code = generate("Thing", &v, TargetMode::Rust).unwrap();
    assert!(code.contains("struct Thing"));
    assert!(code.contains("alpha"));
    assert!(code.contains("beta_field"));
}

#[test]
fn generate_array_sample() {
    let v = arr(vec![obj(vec![("id", num("1"))]), obj(vec![("id", num("2"))])]);
    let code = generate("Item", &v, TargetMode::Typescript).unwrap();
    assert!(code.contains("id: number"));
}

// ---- serialization ----

#[test]
fn json_text_is_compact() {
    let v = obj(vec![
        ("a", num("1")),
        ("b", arr(vec![JsonValue::Null, JsonValue::Bool(true), JsonValue::Bool(false)])),
        ("c", obj(vec![])),
    ]);
    assert_eq!(sample_text(&v).unwrap(), r#"{"a":1,"b":[null,true,false],"c":{}}"#);
}

#[test]
fn json_text_escapes_strings() {
    let v = text("a\"b\\c\nd\te\u{1}f\u{8}\u{c}\rü");
    assert_eq!(sample_text(&v).unwrap(), "\"a\\\"b\\\\c\\nd\\te\\u0001f\\b\\f\\rü\"");
}

#[test]
fn json_text_writes_numbers_canonically() {
    let v = arr(vec![num("1.50"), num("1e2"), num("-0"), num("18446744073709551615")]);
    assert_eq!(sample_text(&v).unwrap(), "[1.5,100.0,-0.0,18446744073709551615]");
}

#[test]
fn json_text_refuses_a_number_that_is_no_json_number() {
    for bad in ["abc", "", "+1", "1e400", "NaN"] {
        let v = obj(vec![("a", num(bad))]);
        assert!(matches!(sample_text(&v), Err(CliError::Json(..))), "number {bad:?}");
        assert!(matches!(generate("T", &v, TargetMode::Rust), Err(CliError::Json(..))), "number {bad:?}");
    }
}

// ---- format detection ----

#[test]
fn detect_json() {
    assert_eq!(detect_format("data.json"), Format::Json);
    assert_eq!(detect_format("a/b/c.json"), Format::Json);
}

#[test]
fn detect_yaml() {
    assert_eq!(detect_format("config.yaml"), Format::Yaml);
    assert_eq!(detect_format("config.yml"), Format::Yaml);
}

#[test]
fn detect_toml() {
    assert_eq!(detect_format("config.toml"), Format::Toml);
}

#[test]
fn detect_xml() {
    assert_eq!(detect_format("data.xml"), Format::Xml);
}

#[test]
fn detect_properties() {
    assert_eq!(detect_format("config.properties"), Format::Properties);
}

#[test]
fn detect_unknown_defaults_to_json() {
    assert_eq!(detect_format("data.unknown"), Format::Json);
}

#[test]
fn detect_no_extension_defaults_to_json() {
    assert_eq!(detect_format("data"), Format::Json);
}

#[test]
fn detect_edge_paths() {
    assert_eq!(detect_format("archive.tar.yml"), Format::Yaml);
    assert_eq!(detect_format("dir/config.toml/"), Format::Toml);
    assert_eq!(detect_format("dir/data.xml/."), Format::Xml);
    assert_eq!(detect_format(".yaml"), Format::Json);
    assert_eq!(detect_format("dir/.toml"), Format::Json);
    assert_eq!(detect_format("a.yaml/.."), Format::Json);
    assert_eq!(detect_format("/"), Format::Json);
    assert_eq!(detect_format(""), Format::Json);
    assert_eq!(detect_format("config.YAML"), Format::Json);
    assert_eq!(detect_format("x.yaml.json"), Format::Json);
    assert_eq!(detect_format("file."), Format::Json);
}

#[test]
fn forced_format_wins() {
    let cli = cli_with("Root", TargetMode::Rust, Some(Format::Toml));
    assert_eq!(file_format(&cli, "a.json"), Format::Toml);
    let cli = cli_with("Root", TargetMode::Rust, None);
    assert_eq!(file_format(&cli, "a.yml"), Format::Yaml);
}

// ---- parsing ----

#[test]
fn parse_json_ok() {
    let v = parse_to_json(r#"{"a":1,"b":"x"}"#, Format::Json).unwrap();
    assert_eq!(v, obj(vec![("a", num("1")), ("b", text("x"))]));
}

#[test]
fn parse_json_err() {
    let result = parse_to_json(r#"{invalid}"#, Format::Json);
    assert!(result.is_err());
}

#[test]
fn parse_json_error_kind() {
    assert!(matches!(parse_to_json("[1,", Format::Json), Err(CliError::Json(..))));
}

#[test]
fn parse_yaml_ok() {
    let v = parse_to_json("a: 1\nb: x\n", Format::Yaml).unwrap();
    assert_eq!(v, obj(vec![("a", num("1")), ("b", text("x"))]));
}

#[test]
fn parse_yaml_err_is_tagged() {
    match parse_to_json("a: [1,\n", Format::Yaml) {
        Err(CliError::Parse { format, msg }) => {
            assert_eq!(format, "yaml");
            assert!(!msg.is_empty());
        },
        other => panic!("unexpected {other:?}"),
    }
}

#[test]
fn parse_toml_ok() {
    let v = parse_to_json("a = 1\nb = \"x\"\n", Format::Toml).unwrap();
    assert_eq!(v, obj(vec![("a", num("1")), ("b", text("x"))]));
}

#[test]
fn parse_toml_err_is_tagged() {
    assert!(matches!(
        parse_to_json("a = = 1\n", Format::Toml),
        Err(CliError::Parse { format: "toml", .. })
    ));
}

#[test]
fn parse_xml_ok() {
    let v = parse_to_json("<root><a>1</a><b>x</b></root>", Format::Xml).unwrap();
    assert_eq!(v, obj(vec![("a", obj(vec![("text", text("1"))])), ("b", obj(vec![("text", text("x"))]))]));
}

#[test]
fn parse_xml_with_attrs() {
    let v = parse_to_json(r#"<item id="5"><name lang="en">foo</name></item>"#, Format::Xml).unwrap();
    assert_eq!(
        v,
        obj(vec![("name", obj(vec![("lang", text("en")), ("text", text("foo"))])), ("id", text("5"))])
    );
}

#[test]
fn parse_properties_ok() {
    let v = parse_to_json("a=1\nb=true\nc=hello\n", Format::Properties).unwrap();
    assert_eq!(v, obj(vec![("a", num("1")), ("b", JsonValue::Bool(true)), ("c", text("hello"))]));
}

#[test]
fn parse_properties_decimal() {
    let v = parse_to_json("a=1.5\n", Format::Properties).unwrap();
    assert_eq!(v, obj(vec![("a", num("1.5"))]));
    assert_eq!(sample_text(&v).unwrap(), r#"{"a":1.5}"#);
}

#[test]
fn parse_properties_number_grammar() {
    let v = parse_to_json("a=0.5e\nb=1.5E+3\nc=.5\nd=1e400\ne=-2.5e-1\nf=1.\n", Format::Properties).unwrap();
    assert_eq!(
        v,
        obj(vec![
            ("a", text("0.5e")),
            ("b", num("1500.0")),
            ("c", text(".5")),
            ("d", text("1e400")),
            ("e", num("-0.25")),
            ("f", text("1.")),
        ])
    );
}

#[test]
fn json_errors_carry_the_reader_message() {
    let theirs = serde_json::from_str::<serde_json::Value>("[1,").unwrap_err().to_string();
    match parse_to_json("[1,", Format::Json) {
        Err(CliError::Json(e, msg)) => {
            assert_eq!(msg, theirs);
            assert_eq!(e.to_string(), theirs);
        }
        other => panic!("{other:?}"),
    }
    match parse_all("{\"a\":1} {\"b\":", Format::Json) {
        Err(CliError::Json(e, msg)) => assert_eq!(msg, e.to_string()),
        other => panic!("{other:?}"),
    }
    let number_error = "abc".parse::<serde_json::Number>().unwrap_err().to_string();
    match sample_text(&num("abc")) {
        Err(CliError::Json(_, msg)) => assert_eq!(msg, number_error),
        other => panic!("{other:?}"),
    }
}

#[test]
fn parse_properties_typing_edges() {
    let v = parse_to_json(
        "p=+5\nz=-0\nbig=9223372036854775808\nmin=-9223372036854775808\ncap=True\nf=false\ne=\nsp= 7\nd=1.5\nx=1e2\nhuge=1e400\n",
        Format::Properties,
    )
    .unwrap();
    assert_eq!(
        v,
        obj(vec![
            ("p", num("5")),
            ("z", num("0")),
            ("big", num("9223372036854775808")),
            ("min", num("-9223372036854775808")),
            ("cap", text("True")),
            ("f", JsonValue::Bool(false)),
            ("e", text("")),
            ("sp", num("7")),
            ("d", num("1.5")),
            ("x", num("100.0")),
            ("huge", text("1e400")),
        ])
    );
}

#[test]
fn parse_xml_err() {
    let result = parse_to_json("<bad", Format::Xml);
    assert!(result.is_err());
}

#[test]
fn parse_all_json_stream() {
    let vs = parse_all("{\"a\":1} {\"b\":2}\n[3]", Format::Json).unwrap();
    assert_eq!(vs, vec![obj(vec![("a", num("1"))]), obj(vec![("b", num("2"))]), arr(vec![num("3")])]);
    assert!(parse_all("{\"a\":1} {", Format::Json).is_err());
    assert_eq!(parse_all("", Format::Json).unwrap(), Vec::<JsonValue>::new());
}

#[test]
fn parse_all_yaml_documents() {
    let vs = parse_all("a: 1\n---\nb: 2\n", Format::Yaml).unwrap();
    assert_eq!(vs, vec![obj(vec![("a", num("1"))]), obj(vec![("b", num("2"))])]);
}

#[test]
fn parse_all_single_value_formats() {
    let vs = parse_all("a = 1\n", Format::Toml).unwrap();
    assert_eq!(vs, vec![obj(vec![("a", num("1"))])]);
}

#[test]
fn parse_all_gives_the_one_value_of_parse_to_json() {
    let cases = [
        ("a: 1\nb: [x, 2.5]\n", Format::Yaml),
        ("", Format::Yaml),
        ("a: [\n", Format::Yaml),
        ("a = 1\n[t]\nb = true\n", Format::Toml),
        ("a = \n", Format::Toml),
        ("<r a=\"1\"><b>x</b></r>", Format::Xml),
        ("<bad", Format::Xml),
        ("a=1\nb=x\nc=2.5\n", Format::Properties),
    ];
    for (input, format) in cases {
        match (parse_all(input, format), parse_to_json(input, format)) {
            (Ok(all), Ok(one)) => assert_eq!(all, vec![one], "input {input:?}"),
            (Err(CliError::Parse { format: f1, msg: m1 }), Err(CliError::Parse { format: f2, msg: m2 })) => {
                assert_eq!((f1, m1), (f2, m2), "input {input:?}")
            }
            (a, b) => panic!("input {input:?}: {a:?} against {b:?}"),
        }
    }
}

#[test]
fn yaml_with_more_documents_is_refused_by_the_one_document_reader() {
    let input = "a: 1\n---\nb: 2\n";
    assert_eq!(parse_all(input, Format::Yaml).unwrap().len(), 2);
    match parse_to_json(input, Format::Yaml) {
        Err(CliError::Parse { format, msg }) => {
            assert_eq!(format, "yaml");
            assert_eq!(msg, "deserializing from YAML containing more than one document is not supported");
        }
        other => panic!("{other:?}"),
    }
}

// ---- XML key cleaning ----

#[test]
fn clean_renames_nested_keys() {
    let v = obj(vec![("@id", text("1")), ("child", arr(vec![obj(vec![("$text", text("t")), ("@@x", num("2"))])]))]);
    let cleaned = clean_xml_value(v);
    assert_eq!(
        cleaned,
        obj(vec![("id", text("1")), ("child", arr(vec![obj(vec![("text", text("t")), ("@x", num("2"))])]))])
    );
}

#[test]
fn clean_goes_item_by_item_and_keeps_scalars() {
    let scalars = || vec![num("1.5"), text("@a"), JsonValue::Bool(true), JsonValue::Null];
    for (v, same) in scalars().into_iter().zip(scalars()) {
        assert_eq!(sample_text(&clean_xml_value(v)).unwrap(), sample_text(&same).unwrap());
    }
    let items = || vec![obj(vec![("@a", num("1"))]), text("$text"), arr(vec![obj(vec![("$text", num("2"))])])];
    let whole = clean_xml_value(arr(items()));
    let one_by_one = arr(items().into_iter().map(clean_xml_value).collect());
    assert_eq!(sample_text(&whole).unwrap(), sample_text(&one_by_one).unwrap());
    assert_eq!(sample_text(&whole).unwrap(), r#"[{"a":1},"$text",[{"text":2}]]"#);
}

#[test]
fn clean_leaves_no_text_marker_at_any_depth() {
    let v = obj(vec![
        ("@$text", num("1")),
        ("k", arr(vec![obj(vec![("$text", obj(vec![("$text", text("$text"))]))])])),
    ]);
    assert_eq!(sample_text(&clean_xml_value(v)).unwrap(), r#"{"text":1,"k":[{"text":{"text":"$text"}}]}"#);
}

#[test]
fn clean_attribute_overrides_plain_key() {
    // "@a" comes first: its cleaned value lands on "a", then "a" is processed again.
    let v = obj(vec![("@a", num("1")), ("a", num("2"))]);
    assert_eq!(clean_xml_value(v), obj(vec![("a", num("1"))]));
    // "a" comes first: "@a" then overwrites it.
    let v = obj(vec![("a", num("2")), ("@a", num("1"))]);
    assert_eq!(clean_xml_value(v), obj(vec![("a", num("1"))]));
}

#[test]
fn clean_keeps_insertion_order_like_index_map() {
    let v = obj(vec![("a", num("1")), ("b", num("2")), ("c", num("3"))]);
    let cleaned = clean_xml_value(v);
    assert_eq!(sample_text(&cleaned).unwrap(), r#"{"b":2,"a":1,"c":3}"#);
}

// ---- merging ----

#[test]
fn merge_two_objects() {
    let result = merge_samples(vec![obj(vec![("a", num("1"))]), obj(vec![("b", num("2"))])]);
    assert_eq!(result, obj(vec![("a", num("1")), ("b", num("2"))]));
}

#[test]
fn merge_overwrites_keys() {
    let result = merge_samples(vec![obj(vec![("a", num("1"))]), obj(vec![("a", num("2"))])]);
    assert_eq!(result, obj(vec![("a", num("2"))]));
}

#[test]
fn merge_nested() {
    let result = merge_samples(vec![
        obj(vec![("a", obj(vec![("x", num("1"))]))]),
        obj(vec![("a", obj(vec![("y", num("2"))]))]),
    ]);
    assert_eq!(result, obj(vec![("a", obj(vec![("x", num("1")), ("y", num("2"))]))]));
}

#[test]
fn merge_single() {
    let result = merge_samples(vec![obj(vec![("a", num("1"))])]);
    assert_eq!(result, obj(vec![("a", num("1"))]));
}

#[test]
fn merge_empty() {
    let result = merge_samples(vec![]);
    assert_eq!(result, JsonValue::Null);
}

#[test]
fn merge_with_empty_changes_nothing() {
    let o = || obj(vec![("z", num("1")), ("a", arr(vec![text("x")]))]);
    let mut left = o();
    merge(&mut left, obj(vec![]));
    assert_eq!(sample_text(&left).unwrap(), r#"{"z":1,"a":["x"]}"#);
    let mut empty = obj(vec![]);
    merge(&mut empty, o());
    assert_eq!(sample_text(&empty).unwrap(), r#"{"z":1,"a":["x"]}"#);
    let a = || arr(vec![num("1"), obj(vec![("b", JsonValue::Null)])]);
    let mut left = a();
    merge(&mut left, arr(vec![]));
    assert_eq!(sample_text(&left).unwrap(), r#"[1,{"b":null}]"#);
    let mut empty = arr(vec![]);
    merge(&mut empty, a());
    assert_eq!(sample_text(&empty).unwrap(), r#"[1,{"b":null}]"#);
}

#[test]
fn merge_arrays() {
    let result = merge_samples(vec![arr(vec![num("1"), num("2")]), arr(vec![num("3"), num("4")])]);
    assert_eq!(result, arr(vec![num("1"), num("2"), num("3"), num("4")]));
}

#[test]
fn merge_object_then_array_overwrites() {
    let result = merge_samples(vec![obj(vec![("a", num("1"))]), arr(vec![num("1"), num("2"), num("3")])]);
    assert_eq!(result, arr(vec![num("1"), num("2"), num("3")]));
}

#[test]
fn merge_array_then_object_overwrites() {
    let result = merge_samples(vec![arr(vec![num("1"), num("2")]), obj(vec![("a", num("1"))])]);
    assert_eq!(result, obj(vec![("a", num("1"))]));
}

#[test]
fn merge_deep_nested_overwrite() {
    let result = merge_samples(vec![
        obj(vec![("a", obj(vec![("b", obj(vec![("c", num("1")), ("d", num("2"))]))]))]),
        obj(vec![("a", obj(vec![("b", obj(vec![("c", num("99")), ("e", num("3"))]))]))]),
    ]);
    assert_eq!(
        result,
        obj(vec![("a", obj(vec![("b", obj(vec![("c", num("99")), ("d", num("2")), ("e", num("3"))]))]))])
    );
}

#[test]
fn merge_null_values() {
    let result = merge_samples(vec![obj(vec![("a", JsonValue::Null)]), obj(vec![("b", num("1"))])]);
    assert_eq!(result, obj(vec![("a", JsonValue::Null), ("b", num("1"))]));
}

#[test]
fn merge_keeps_order_of_first_then_new_keys() {
    let mut v = obj(vec![("z", num("1")), ("a", num("2"))]);
    merge(&mut v, obj(vec![("m", num("3")), ("z", num("4"))]));
    assert_eq!(sample_text(&v).unwrap(), r#"{"z":4,"a":2,"m":3}"#);
}

#[test]
fn merge_scalar_replaced_by_later() {
    let result = merge_samples(vec![num("1"), text("x"), JsonValue::Bool(false)]);
    assert_eq!(result, JsonValue::Bool(false));
    let result = merge_samples(vec![obj(vec![("x", num("1"))]), num("5"), obj(vec![("y", num("2"))])]);
    assert_eq!(result, obj(vec![("y", num("2"))]));
}

#[test]
fn merge_all_keys_of_every_sample() {
    let result = merge_samples(vec![
        obj(vec![("a", num("1"))]),
        obj(vec![("b", num("2"))]),
        obj(vec![("a", num("3")), ("c", num("4"))]),
    ]);
    assert_eq!(result, obj(vec![("a", num("3")), ("b", num("2")), ("c", num("4"))]));
}

#[test]
fn equality_ignores_entry_order() {
    assert_eq!(obj(vec![("a", num("1")), ("b", num("2"))]), obj(vec![("b", num("2")), ("a", num("1"))]));
    assert_ne!(obj(vec![("a", num("1"))]), obj(vec![("a", num("1")), ("b", num("2"))]));
    assert_ne!(arr(vec![num("1"), num("2")]), arr(vec![num("2"), num("1")]));
    assert_ne!(num("1"), num("1.0"));
}

// ---- the whole pipeline ----

#[test]
fn json_to_rust() {
    let cli = cli_with("Test", TargetMode::Rust, None);
    let stdout = run_piped("{\"x\": 1}", &cli).unwrap().unwrap();
    assert!(stdout.contains("struct Test"));
}

#[test]
fn json_to_typescript() {
    let cli = cli_with("Root", TargetMode::Typescript, None);
    let stdout = run_piped("{\"x\": 1}", &cli).unwrap().unwrap();
    assert!(stdout.contains("Root"));
}

#[test]
fn stdin_pipe_works() {
    let cli = cli_with("Root", TargetMode::Rust, None);
    let stdout = run_piped("{\"x\": 1}", &cli).unwrap().unwrap();
    assert!(stdout.contains("x"));
}

#[test]
fn invalid_format_returns_error() {
    let cli = cli_with("Root", TargetMode::Rust, None);
    assert!(run_piped("{invalid}", &cli).is_err());
}

#[test]
fn no_input_is_empty_success() {
    let cli = cli_with("Root", TargetMode::Rust, None);
    assert_eq!(run_piped("", &cli).unwrap(), None);
    assert_eq!(run_piped(" \n\t\u{3000}", &cli).unwrap(), None);
}

#[test]
fn sources_take_priority_in_order() {
    let mut cli = cli_with("Root", TargetMode::Rust, None);
    assert_eq!(source_plan(&cli), SourcePlan { urls: false, files: false, stdin: true });
    cli.sources.push("a.json".to_string());
    assert_eq!(source_plan(&cli), SourcePlan { urls: false, files: true, stdin: false });
    cli.url.push("http://example.invalid".to_string());
    assert_eq!(source_plan(&cli), SourcePlan { urls: true, files: true, stdin: false });
    cli.sources.clear();
    assert_eq!(source_plan(&cli), SourcePlan { urls: true, files: false, stdin: false });
}

#[test]
fn piped_stream_merges_samples() {
    let cli = cli_with("Root", TargetMode::Rust, None);
    let mut samples = Vec::new();
    add_piped_samples(&mut samples, &cli, "{\"a\":1}\n{\"b\":\"x\"}").unwrap();
    assert_eq!(samples.len(), 2);
    let code = code_for_samples(&cli, samples).unwrap().unwrap();
    assert!(code.contains("a:"));
    assert!(code.contains("b:"));
}

#[test]
fn piped_yaml_documents_merge() {
    let cli = cli_with("Root", TargetMode::Typescript, Some(Format::Yaml));
    let code = run_piped("a: 1\n---\nb: x\n", &cli).unwrap().unwrap();
    assert!(code.contains("a"));
    assert!(code.contains("b"));
}

/// The format the extension that `std::path::Path` reads names.
fn format_by_std_path(path: &str) -> Format {
    match std::path::Path::new(path).extension().and_then(|e| e.to_str()) {
        Some("json") => Format::Json,
        Some("yaml") | Some("yml") => Format::Yaml,
        Some("toml") => Format::Toml,
        Some("xml") => Format::Xml,
        Some("properties") => Format::Properties,
        _ => Format::Json,
    }
}

#[test]
fn detect_agrees_with_std_path() {
    let paths = [
        "a.yml", "a.b.toml", ".xml", "x/.properties", "x/y.properties", "x.yaml/", "x.yaml//",
        "x.yaml/.", "x.yaml/./", "./x.toml", "../x.toml", "x.toml/..", "..", ".", "/", "",
        "//x.xml", "a..toml", "a.", ".a.yml", "dir.d/file", "ü.yaml", "a/b/c.json", "a/.b.c.xml",
    ];
    for p in paths {
        assert_eq!(detect_format(p), format_by_std_path(p), "path {p:?}");
    }
}

#[test]
fn scalar_typing_agrees_with_std_parse() {
    let values = [
        "true", "false", "True", "0", "-0", "+0", "007", "-", "+", "", "12a", " 1", "1 ",
        "9223372036854775807", "9223372036854775808", "-9223372036854775808",
        "-9223372036854775809", "+-1", "1.5", "١", "-2.50", ".5", "1.", "1e400", "NaN",
    ];
    for v in values {
        let expected = if let Ok(b) = v.parse::<bool>() {
            JsonValue::Bool(b)
        } else if let Ok(n) = v.parse::<i64>() {
            JsonValue::Number(n.to_string())
        } else if let Ok(n) = v.parse::<serde_json::Number>() {
            JsonValue::Number(n.to_string())
        } else {
            JsonValue::Str(v.to_string())
        };
        assert_eq!(type_forge::scalar::scalar_value(v), expected, "value {v:?}");
    }
}

#[test]
fn json_text_agrees_with_serde_json() {
    let mut all = String::new();
    for c in 0u32..0x90 {
        if let Some(ch) = char::from_u32(c) {
            all.push(ch);
        }
    }
    all.push_str("ü€😀\u{2028}");
    let texts = [all.as_str(), "", "plain", "\"quoted\"", "back\\slash"];
    for t in texts {
        let ours = sample_text(&text(t)).unwrap();
        let theirs = serde_json::to_string(&serde_json::Value::String(t.to_string())).unwrap();
        assert_eq!(ours, theirs);
    }
    let v = parse_to_json(r#"{"b":[1,2.5,-3e10,null],"a":{"x":true,"y":"\u0007"}}"#, Format::Json).unwrap();
    let theirs: serde_json::Value = serde_json::from_str(r#"{"b":[1,2.5,-3e10,null],"a":{"x":true,"y":"\u0007"}}"#).unwrap();
    assert_eq!(sample_text(&v).unwrap(), serde_json::to_string(&theirs).unwrap());
}

#[test]
fn equality_agrees_with_serde_json() {
    let pairs = [
        (r#"{"a":1,"b":[1,2]}"#, r#"{"b":[1,2],"a":1}"#),
        (r#"{"a":1}"#, r#"{"a":1.0}"#),
        ("-0.0", "0.0"),
        ("[-0.0]", "[0]"),
        ("1e2", "100.0"),
        (r#"{"a":{"b":null}}"#, r#"{"a":{"b":false}}"#),
        (r#"[1,[2,3]]"#, r#"[1,[3,2]]"#),
        (r#""x""#, r#""x""#),
        ("{}", "[]"),
    ];
    for (l, r) in pairs {
        let ours = parse_to_json(l, Format::Json).unwrap() == parse_to_json(r, Format::Json).unwrap();
        let lv: serde_json::Value = serde_json::from_str(l).unwrap();
        let rv: serde_json::Value = serde_json::from_str(r).unwrap();
        assert_eq!(ours, lv == rv, "{l} vs {r}");
    }
}
