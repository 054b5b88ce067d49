use config::env::Environment;
use config::file::decode_file_content;
use config::file::identify_format;
use config::file::FileFormat;
use config::file::FileSourceFile;
use config::format::extract_root_table;
use config::error::ConfigError;
use config::path::abs_index;
use config::path::from_str;
use config::path::Expression;
use config::source::ConfigBuilder;
use config::source::Source;
use config::value::Table;
use config::value::Value;
use config::value::ValueKind;

fn v(kind: ValueKind) -> Value {
    Value::new(None, kind)
}

fn num(n: i64) -> Value {
    v(ValueKind::I64(n))
}

fn table(entries: Vec<(&str, Value)>) -> Value {
    let mut t = Table::new();
    for (k, val) in entries {
        t.insert(k.to_string(), val);
    }
    v(ValueKind::Table(t))
}

#[test]
fn merge_tables_unions_keys_right_wins() {
    let mut a = table(vec![("a", table(vec![("x", num(1)), ("y", num(2))]))]);
    let b = table(vec![("a", table(vec![("y", num(3)), ("z", num(4))]))]);
    a.merge(b);
    let expected = table(vec![("a", table(vec![("x", num(1)), ("y", num(3)), ("z", num(4))]))]);
    assert_eq!(a, expected);
}

#[test]
fn merge_arrays_replace_wholesale() {
    let mut a = v(ValueKind::Array(vec![num(1), num(2), num(3)]));
    let b = v(ValueKind::Array(vec![num(9)]));
    a.merge(b);
    assert_eq!(a, v(ValueKind::Array(vec![num(9)])));
}

#[test]
fn merge_scalars_right_biased() {
    let mut a = num(1);
    a.merge(v(ValueKind::Str("two".to_owned())));
    assert_eq!(a.kind, ValueKind::Str("two".to_owned()));
}

#[test]
fn merge_is_associative_on_plain_trees() {
    let build = |x: i64, y: i64| table(vec![("a", table(vec![("x", num(x)), ("y", num(y))]))]);
    let mut left = build(1, 1);
    left.merge(build(2, 2));
    left.merge(build(3, 4));

    let mut bc = build(2, 2);
    bc.merge(build(3, 4));
    let mut right = build(1, 1);
    right.merge(bc);

    assert_eq!(left, right);
}

#[test]
fn subscript_too_large_for_an_index_is_refused() {
    let err = from_str("a[99999999999]").unwrap_err();
    assert_eq!(
        err.render(),
        "a[99999999999]
  ^
invalid subscript
expected integer"
    );
}

#[test]
fn set_then_get_round_trip() {
    let mut root = table(vec![]);
    let expr = from_str("a.b[2].c").unwrap();
    expr.set(&mut root, v(ValueKind::Str("deep".to_owned())));
    let got = expr.get(&root).unwrap();
    assert_eq!(got.kind, ValueKind::Str("deep".to_owned()));
}

#[test]
fn negative_subscript_counts_from_end() {
    let root = table(vec![(
        "arr",
        v(ValueKind::Array(vec![num(10), num(20), num(30)])),
    )]);
    let last = from_str("arr[-1]").unwrap().get(&root).unwrap();
    let same = from_str("arr[2]").unwrap().get(&root).unwrap();
    assert_eq!(last, same);
    assert_eq!(last.kind, ValueKind::I64(30));

    assert!(from_str("arr[3]").unwrap().get(&root).is_none());
    assert!(from_str("arr[-4]").unwrap().get(&root).is_none());
}

#[test]
fn forcing_a_path_through_a_scalar_destroys_it() {
    let mut root = table(vec![("a", num(5))]);
    from_str("a.b").unwrap().set(&mut root, num(10));
    let expected = table(vec![("a", table(vec![("b", num(10))]))]);
    assert_eq!(root, expected);
}

#[test]
fn sparse_array_creation_pads_with_nil() {
    let mut root = table(vec![]);
    from_str("arr[3]")
        .unwrap()
        .set(&mut root, v(ValueKind::Str("x".to_owned())));
    let expected = table(vec![(
        "arr",
        v(ValueKind::Array(vec![
            v(ValueKind::Nil),
            v(ValueKind::Nil),
            v(ValueKind::Nil),
            v(ValueKind::Str("x".to_owned())),
        ])),
    )]);
    assert_eq!(root, expected);
}

#[test]
fn get_mut_forcibly_reports_root_shape() {
    let mut root = table(vec![]);
    let expr = from_str("a.b").unwrap();
    assert!(expr.get_mut_forcibly(&mut root));
    assert!(expr.get(&root).is_some());

    let mut scalar = num(5);
    assert!(!from_str("a").unwrap().get_mut_forcibly(&mut scalar));
    assert_eq!(scalar, num(5));
}

#[test]
fn mutable_accessors_expose_the_containers() {
    let mut val = table(vec![("k", num(1))]);
    match val.as_table_mut() {
        Some(t) => t.insert("k2".to_owned(), num(2)),
        None => panic!("not a table"),
    }
    assert_eq!(val, table(vec![("k", num(1)), ("k2", num(2))]));

    let mut arr = v(ValueKind::Array(vec![num(1)]));
    match arr.as_array_mut() {
        Some(a) => a.push(num(2)),
        None => panic!("not an array"),
    }
    assert_eq!(arr, v(ValueKind::Array(vec![num(1), num(2)])));

    let mut scalar = num(3);
    assert!(scalar.as_table_mut().is_none());
    assert!(scalar.as_array_mut().is_none());
}

#[test]
fn environment_list_splitting() {
    let environment = Environment::with_prefix("APP")
        .separator("_")
        .list_separator(" ")
        .with_list_parse_key("list")
        .try_parsing(true)
        .source(Some(vec![("APP_LIST".to_owned(), "Hello World".to_owned())]));

    let collected = environment.collect().unwrap();
    let list = collected.get("list").unwrap();
    match &list.kind {
        ValueKind::Array(items) => {
            let texts: Vec<&ValueKind> = items.iter().map(|i| &i.kind).collect();
            assert_eq!(
                texts,
                vec![
                    &ValueKind::Str("Hello".to_owned()),
                    &ValueKind::Str("World".to_owned())
                ]
            );
        }
        other => panic!("not a list: {other:?}"),
    }
}

#[test]
fn source_order_is_the_only_tie_break() {
    let s1 = table(vec![("x", num(1)), ("y", num(1))]);
    let s2 = table(vec![("y", num(2)), ("z", num(2))]);

    let as_table = |val: &Value| match &val.kind {
        ValueKind::Table(t) => t.duplicate(),
        _ => panic!("not a table"),
    };

    let mut builder = ConfigBuilder::new();
    builder.add_source(Source::Memory(as_table(&s1)));
    builder.add_source(Source::Memory(as_table(&s2)));
    let config = builder.build().unwrap();
    assert_eq!(config.get("x").unwrap().kind, ValueKind::I64(1));
    assert_eq!(config.get("y").unwrap().kind, ValueKind::I64(2));
    assert_eq!(config.get("z").unwrap().kind, ValueKind::I64(2));

    let mut reversed = ConfigBuilder::new();
    reversed.add_source(Source::Memory(as_table(&s2)));
    reversed.add_source(Source::Memory(as_table(&s1)));
    let config = reversed.build().unwrap();
    assert_eq!(config.get("y").unwrap().kind, ValueKind::I64(1));
}

#[test]
fn defaults_lose_and_overrides_win() {
    let mut builder = ConfigBuilder::new();
    builder.set_default("x", num(1)).unwrap();
    builder.set_default("y", num(1)).unwrap();
    builder
        .add_source(Source::Memory({
            let mut t = Table::new();
            t.insert("x".to_owned(), num(10));
            t
        }));
    builder.set_override("y", num(99)).unwrap();
    let config = builder.build().unwrap();
    assert_eq!(config.get("x").unwrap().kind, ValueKind::I64(10));
    assert_eq!(config.get("y").unwrap().kind, ValueKind::I64(99));
}

#[test]
fn test_path_index_bounds() {
    let mut builder = ConfigBuilder::new();
    builder
        .add_source(Source::Memory({
            let mut t = Table::new();
            t.insert("arr".to_owned(), v(ValueKind::Array(vec![num(1)])));
            t
        }));
    let config = builder.build().unwrap();

    assert_eq!(config.get("arr[0]").unwrap().kind, ValueKind::I64(1));
    match config.get("arr[2]") {
        Err(ConfigError::NotFound(p)) => assert_eq!(p, "arr[2]"),
        other => panic!("wrong result: {other:?}"),
    }
}

#[test]
fn test_path_index_negative_bounds() {
    let mut builder = ConfigBuilder::new();
    builder
        .add_source(Source::Memory({
            let mut t = Table::new();
            t.insert("arr".to_owned(), v(ValueKind::Array(vec![])));
            t
        }));
    let config = builder.build().unwrap();

    match config.get("arr[-1]") {
        Err(ConfigError::NotFound(p)) => assert_eq!(p, "arr[-1]"),
        other => panic!("wrong result: {other:?}"),
    }
}

#[test]
fn typed_getters_check_the_kind() {
    let mut builder = ConfigBuilder::new();
    builder.set_default("debug", v(ValueKind::Boolean(true))).unwrap();
    builder.set_default("port", num(8080)).unwrap();
    builder
        .set_default("name", v(ValueKind::Str("home".to_owned())))
        .unwrap();
    let config = builder.build().unwrap();

    assert_eq!(config.get_bool("debug"), Ok(true));
    assert_eq!(config.get_i64("port"), Ok(8080));
    assert_eq!(config.get_string("name"), Ok("home".to_owned()));

    match config.get_bool("port") {
        Err(ConfigError::Type {
            path,
            expected,
            got,
        }) => {
            assert_eq!(path, "port");
            assert_eq!(expected, "a boolean");
            assert_eq!(got, "an integer");
        }
        other => panic!("wrong result: {other:?}"),
    }
    match config.get_i64("name") {
        Err(ConfigError::Type { got, .. }) => assert_eq!(got, "a string"),
        other => panic!("wrong result: {other:?}"),
    }
    match config.get_string("missing") {
        Err(ConfigError::NotFound(p)) => assert_eq!(p, "missing"),
        other => panic!("wrong result: {other:?}"),
    }
}

#[test]
fn setting_an_empty_table_value_leaves_a_scalar_slot() {
    let mut root = table(vec![("a", num(5))]);
    from_str("a").unwrap().set(&mut root, table(vec![]));
    assert_eq!(root, table(vec![("a", num(5))]));

    let mut root = table(vec![]);
    from_str("b").unwrap().set(&mut root, table(vec![]));
    assert_eq!(root, table(vec![("b", table(vec![]))]));
}

#[test]
fn whitespace_is_allowed_around_a_bracket_index() {
    let parsed = from_str("a[ 12 ]").unwrap();
    let parsed_tight = from_str("a[12]").unwrap();
    assert_eq!(parsed, parsed_tight);

    assert!(from_str(" a").is_err());
    assert!(from_str("a .b").is_err());
}

#[test]
fn unclosed_reference_stays_literal() {
    let vars = vec![("X".to_owned(), "1".to_owned())];
    assert_eq!(
        config::nested_env_vars::expand_env_vars("abc${X", &vars),
        "abc${X"
    );
}

#[test]
fn dotenv_rejects_malformed_text() {
    match config::file::format::dotenv::parse(None, "NOT A VALID LINE
") {
        Err(ConfigError::Foreign { .. }) => {}
        other => panic!("wrong result: {other:?}"),
    }
}

#[test]
fn set_default_rejects_a_bad_path_and_changes_nothing() {
    let mut builder = ConfigBuilder::new();
    assert!(builder.set_default("a..", num(1)).is_err());
    let config = builder.build().unwrap();
    match config.get("a") {
        Err(ConfigError::NotFound(_)) => {}
        other => panic!("wrong result: {other:?}"),
    }
}

#[test]
fn bad_path_reports_parse_error() {
    let config = ConfigBuilder::new().build().unwrap();
    match config.get("a..") {
        Err(ConfigError::PathParse { cause }) => {
            assert_eq!(cause.offset, 2);
        }
        other => panic!("wrong result: {other:?}"),
    }
}

#[test]
fn abs_index_resolves_relative_positions() {
    assert_eq!(abs_index(2, 5), Ok(2));
    assert_eq!(abs_index(-1, 5), Ok(4));
    assert_eq!(abs_index(-5, 5), Ok(0));
    assert_eq!(abs_index(-7, 5), Err(2));
    assert_eq!(abs_index(7, 5), Ok(7));
}

#[test]
fn expression_root_is_an_identifier() {
    let e = Expression::root("top".to_owned());
    assert_eq!(e, Expression::Identifier("top".to_owned()));
}

#[test]
fn dotenv_parses_key_value_lines() {
    let t = config::file::format::dotenv::parse(Some("test.env"), "KEY=value\nOTHER=2\n")
        .unwrap();
    assert_eq!(t.get("KEY").unwrap().kind, ValueKind::Str("value".to_owned()));
    assert_eq!(t.get("OTHER").unwrap().kind, ValueKind::Str("2".to_owned()));
    assert_eq!(
        t.get("KEY").unwrap().origin,
        Some("test.env".to_owned())
    );
}

#[test]
fn ini_parses_sections_and_expands_variables() {
    let vars = vec![("WHO".to_owned(), "world".to_owned())];
    let text = "top=plain\n[sec]\ngreeting=hello ${WHO}\nmissing=${NOPE:-fallback}\n";
    let t = config::file::format::ini::parse(Some("test.ini"), text, &vars).unwrap();
    assert_eq!(t.get("top").unwrap().kind, ValueKind::Str("plain".to_owned()));
    let sec = t.get("sec").unwrap();
    match &sec.kind {
        ValueKind::Table(inner) => {
            assert_eq!(
                inner.get("greeting").unwrap().kind,
                ValueKind::Str("hello world".to_owned())
            );
            assert_eq!(
                inner.get("missing").unwrap().kind,
                ValueKind::Str("fallback".to_owned())
            );
        }
        other => panic!("not a table: {other:?}"),
    }
}

#[test]
fn ini_rejects_malformed_text() {
    let vars = vec![];
    match config::file::format::ini::parse(None, "[unclosed\nk=v", &vars) {
        Err(ConfigError::Foreign { .. }) => {}
        other => panic!("wrong result: {other:?}"),
    }
}

#[test]
fn bom_is_stripped_before_decoding() {
    let bytes: Vec<u8> = vec![0xef, 0xbb, 0xbf, b'h', b'i'];
    assert_eq!(decode_file_content(&bytes), "hi");
    let plain: Vec<u8> = vec![b'h', b'i'];
    assert_eq!(decode_file_content(&plain), "hi");
    let broken: Vec<u8> = vec![b'h', 0xff, b'i'];
    assert_eq!(decode_file_content(&broken), "h\u{fffd}i");
}

#[test]
fn formats_are_identified_by_extension() {
    assert_eq!(identify_format("ini"), Some(FileFormat::Ini));
    assert_eq!(identify_format("ron"), Some(FileFormat::Ron));
    assert_eq!(identify_format("jsonc"), Some(FileFormat::Jsonc));
    assert_eq!(identify_format("env"), Some(FileFormat::Dotenv));
    assert_eq!(identify_format("toml"), None);
    assert_eq!(FileFormat::Ini.extension(), "ini");
}

#[test]
fn root_must_be_a_table() {
    let ok = extract_root_table(None, table(vec![("k", num(1))]));
    assert!(ok.is_ok());
    match extract_root_table(Some("x.ini"), v(ValueKind::Boolean(false))) {
        Err(ConfigError::Foreign { uri, .. }) => assert_eq!(uri, Some("x.ini".to_owned())),
        other => panic!("wrong result: {other:?}"),
    }
}

#[test]
fn relative_uri_prefers_the_relative_form() {
    let file = std::path::PathBuf::from("/etc/app/conf.ini");
    let base = std::path::PathBuf::from("/etc");
    assert_eq!(
        config::file::relative_uri(&file, Some(&base)),
        std::path::PathBuf::from("app/conf.ini")
    );
    assert_eq!(config::file::relative_uri(&file, None), file);
}

#[test]
fn missing_file_diagnostics_name_the_file() {
    let source = FileSourceFile::new(std::path::PathBuf::from("conf/app"));
    match source.error_invalid_path() {
        ConfigError::NotFound(m) => {
            assert_eq!(m, "configuration file \"conf/app\" not found");
        }
        other => panic!("wrong result: {other:?}"),
    }
    match source.error_invalid_format() {
        ConfigError::NotFound(m) => {
            assert_eq!(
                m,
                "configuration file \"conf/app\" is not of a registered file format"
            );
        }
        other => panic!("wrong result: {other:?}"),
    }
}

#[test]
fn environment_parses_in_documented_order() {
    let environment = Environment::default()
        .try_parsing(true)
        .source(Some(vec![
            ("B".to_owned(), "TRUE".to_owned()),
            ("I".to_owned(), "-7".to_owned()),
            ("F".to_owned(), "1e3".to_owned()),
            ("INF".to_owned(), "inf".to_owned()),
            ("S".to_owned(), "1x".to_owned()),
        ]));
    let t = environment.collect().unwrap();
    assert_eq!(t.get("b").unwrap().kind, ValueKind::Boolean(true));
    assert_eq!(t.get("i").unwrap().kind, ValueKind::I64(-7));
    assert_eq!(t.get("f").unwrap().kind, ValueKind::Float("1e3".to_owned()));
    assert_eq!(
        t.get("inf").unwrap().kind,
        ValueKind::Float("inf".to_owned())
    );
    assert_eq!(t.get("s").unwrap().kind, ValueKind::Str("1x".to_owned()));
}
