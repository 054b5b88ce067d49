use config::env::CaseStyle;
use config::env::Environment;
use config::source::ConfigBuilder;
use config::source::Source;
use config::value::Value;
use config::value::ValueKind;

fn vars(pairs: &[(&str, &str)]) -> Option<Vec<(String, String)>> {
    Some(
        pairs
            .iter()
            .map(|(k, v)| (k.to_string(), v.to_string()))
            .collect(),
    )
}

fn str_value(s: &str) -> Value {
    Value::new(None, ValueKind::Str(s.to_owned()))
}

#[test]
fn env_test_default() {
    let environment = Environment::default().source(vars(&[("A_B_C", "abc")]));

    assert!(environment.collect().unwrap().get("a_b_c").is_some());
}

#[test]
fn env_test_prefix_is_removed_from_key() {
    let environment = Environment::with_prefix("B").source(vars(&[("B_A_C", "abc")]));

    assert!(environment.collect().unwrap().get("a_c").is_some());
}

#[test]
fn env_test_prefix_with_variant_forms_of_spelling() {
    let environment = Environment::with_prefix("a").source(vars(&[("a_A_C", "abc")]));
    assert!(environment.collect().unwrap().get("a_c").is_some());

    let environment = Environment::with_prefix("aB").source(vars(&[("aB_A_C", "abc")]));
    assert!(environment.collect().unwrap().get("a_c").is_some());

    let environment = Environment::with_prefix("ab").source(vars(&[("Ab_A_C", "abc")]));
    assert!(environment.collect().unwrap().get("a_c").is_some());
}

#[test]
fn env_test_empty_value_is_ignored() {
    let environment = Environment::default()
        .ignore_empty(true)
        .source(vars(&[("C_A_B", "")]));

    assert!(environment.collect().unwrap().get("c_a_b").is_none());
}

#[test]
fn env_test_keep_prefix() {
    // Do not keep the prefix
    let environment = Environment::with_prefix("C").source(vars(&[("C_A_B", "")]));
    assert!(environment.collect().unwrap().get("a_b").is_some());

    let environment = Environment::with_prefix("C")
        .keep_prefix(false)
        .source(vars(&[("C_A_B", "")]));
    assert!(environment.collect().unwrap().get("a_b").is_some());

    // Keep the prefix
    let environment = Environment::with_prefix("C")
        .keep_prefix(true)
        .source(vars(&[("C_A_B", "")]));
    assert!(environment.collect().unwrap().get("c_a_b").is_some());
}

#[test]
fn env_test_parse_int() {
    let environment = Environment::default()
        .try_parsing(true)
        .source(vars(&[("INT_VAL", "42")]));

    let mut builder = ConfigBuilder::new();
    builder.set_default("tag", str_value("Int")).unwrap();
    builder.add_source(Source::Environment(environment));
    let config = builder.build().unwrap();

    let v = config.get("int_val").unwrap();
    assert_eq!(v.kind, ValueKind::I64(42));
    let tag = config.get("tag").unwrap();
    assert_eq!(tag.kind, ValueKind::Str("Int".to_owned()));
}

#[test]
fn env_test_parse_uint() {
    let environment = Environment::default()
        .try_parsing(true)
        .source(vars(&[("INT_VAL", "42")]));

    let mut builder = ConfigBuilder::new();
    builder.set_default("tag", str_value("Uint")).unwrap();
    builder.add_source(Source::Environment(environment));
    let config = builder.build().unwrap();

    let v = config.get("int_val").unwrap();
    assert_eq!(v.kind, ValueKind::I64(42));
}

#[test]
fn env_test_parse_float() {
    let environment = Environment::default()
        .try_parsing(true)
        .source(vars(&[("FLOAT_VAL", "42.3")]));

    let mut builder = ConfigBuilder::new();
    builder.set_default("tag", str_value("Float")).unwrap();
    builder.add_source(Source::Environment(environment));
    let config = builder.build().unwrap();

    let v = config.get("float_val").unwrap();
    match &v.kind {
        ValueKind::Float(text) => {
            let float_val: f64 = text.parse().unwrap();
            assert!((float_val - 42.3).abs() < 1e-9);
        }
        other => panic!("not a float: {other:?}"),
    }
}

#[test]
fn env_test_parse_bool() {
    let environment = Environment::default()
        .try_parsing(true)
        .source(vars(&[("BOOL_VAL", "true")]));

    let mut builder = ConfigBuilder::new();
    builder.set_default("tag", str_value("Bool")).unwrap();
    builder.add_source(Source::Environment(environment));
    let config = builder.build().unwrap();

    let v = config.get("bool_val").unwrap();
    assert_eq!(v.kind, ValueKind::Boolean(true));
}

#[test]
fn env_test_parse_string_and_list() {
    let environment = Environment::default()
        .prefix("LIST")
        .list_separator(",")
        .with_list_parse_key("string_list")
        .try_parsing(true)
        .source(vars(&[
            ("LIST_STRING_LIST", "test,string"),
            ("LIST_STRING_VAL", "test,string"),
        ]));

    let mut builder = ConfigBuilder::new();
    builder.set_default("tag", str_value("String")).unwrap();
    builder.add_source(Source::Environment(environment));
    let config = builder.build().unwrap();

    let string_val = config.get("string_val").unwrap();
    assert_eq!(string_val.kind, ValueKind::Str("test,string".to_owned()));

    let list = config.get("string_list").unwrap();
    match &list.kind {
        ValueKind::Array(items) => {
            let texts: Vec<&ValueKind> = items.iter().map(|i| &i.kind).collect();
            assert_eq!(
                texts,
                vec![
                    &ValueKind::Str("test".to_owned()),
                    &ValueKind::Str("string".to_owned())
                ]
            );
        }
        other => panic!("not a list: {other:?}"),
    }
}

#[test]
fn env_test_parse_nested_kebab() {
    let environment = Environment::default()
        .prefix("PREFIX")
        .convert_case(CaseStyle::Kebab)
        .separator("__")
        .source(vars(&[
            ("PREFIX__SINGLE", "test"),
            ("PREFIX__PLAIN__VAL", "simple"),
            ("PREFIX__VALUE_WITH_MULTIPART_NAME", "value1"),
            ("PREFIX__INNER_CONFIG__ANOTHER_MULTIPART_NAME", "value2"),
        ]));

    let mut builder = ConfigBuilder::new();
    builder.add_source(Source::Environment(environment));
    let config = builder.build().unwrap();

    println!("{config:#?}");

    let single = config.get("single").unwrap();
    assert_eq!(single.kind, ValueKind::Str("test".to_owned()));
    let val = config.get("plain.val").unwrap();
    assert_eq!(val.kind, ValueKind::Str("simple".to_owned()));
    let multi = config.get("value-with-multipart-name").unwrap();
    assert_eq!(multi.kind, ValueKind::Str("value1".to_owned()));
    let inner = config.get("inner-config.another-multipart-name").unwrap();
    assert_eq!(inner.kind, ValueKind::Str("value2".to_owned()));
}

#[test]
fn env_test_parse_string() {
    let environment = Environment::default()
        .try_parsing(true)
        .source(vars(&[("STRING_VAL", "test string")]));

    let mut builder = ConfigBuilder::new();
    builder.set_default("tag", str_value("String")).unwrap();
    builder.add_source(Source::Environment(environment));
    let config = builder.build().unwrap();

    let test_string = String::from("test string");
    let v = config.get("string_val").unwrap();
    assert_eq!(v.kind, ValueKind::Str(test_string));
}

#[test]
fn env_test_parse_string_list() {
    let environment = Environment::default()
        .try_parsing(true)
        .list_separator(" ")
        .source(vars(&[("STRING_LIST", "test string")]));

    let mut builder = ConfigBuilder::new();
    builder.set_default("tag", str_value("StringList")).unwrap();
    builder.add_source(Source::Environment(environment));
    let config = builder.build().unwrap();

    let v = config.get("string_list").unwrap();
    match &v.kind {
        ValueKind::Array(items) => {
            let texts: Vec<&ValueKind> = items.iter().map(|i| &i.kind).collect();
            assert_eq!(
                texts,
                vec![
                    &ValueKind::Str("test".to_owned()),
                    &ValueKind::Str("string".to_owned())
                ]
            );
        }
        other => panic!("not a list: {other:?}"),
    }
}

#[test]
fn env_test_parse_off_string() {
    let environment = Environment::default()
        .try_parsing(false)
        .source(vars(&[("STRING_VAL_1", "test string")]));

    let mut builder = ConfigBuilder::new();
    builder.set_default("tag", str_value("String")).unwrap();
    builder.add_source(Source::Environment(environment));
    let config = builder.build().unwrap();

    let test_string = String::from("test string");
    let v = config.get("string_val_1").unwrap();
    assert_eq!(v.kind, ValueKind::Str(test_string));
}

#[test]
fn env_test_parse_int_default() {
    let environment = Environment::default().try_parsing(true).source(Some(vec![]));

    let mut builder = ConfigBuilder::new();
    builder
        .set_default("int_val", Value::new(None, ValueKind::I64(42)))
        .unwrap();
    builder.add_source(Source::Environment(environment));
    let config = builder.build().unwrap();

    let v = config.get("int_val").unwrap();
    assert_eq!(v.kind, ValueKind::I64(42));
}

#[test]
fn env_test_parse_uint_default() {
    let environment = Environment::default().try_parsing(true).source(Some(vec![]));

    let mut builder = ConfigBuilder::new();
    builder
        .set_default("int_val", Value::new(None, ValueKind::I64(42)))
        .unwrap();
    builder.add_source(Source::Environment(environment));
    let config = builder.build().unwrap();

    let v = config.get("int_val").unwrap();
    assert_eq!(v.kind, ValueKind::I64(42));
}

