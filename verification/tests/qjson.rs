use quick::qjson::{from_str, validate, ErrorKind, Number, Schema};

fn integer(desc: &Schema<'_, '_>) -> Option<i64> {
    match desc {
        Schema::Integer(slot) => *slot,
        _ => panic!("not an integer slot"),
    }
}

fn float(desc: &Schema<'_, '_>) -> Option<f64> {
    match desc {
        Schema::Float(Some(Number::Integer(i))) => Some(*i as f64),
        Schema::Float(Some(Number::Decimal(text))) => Some(text.parse().unwrap()),
        Schema::Float(None) => None,
        _ => panic!("not a float slot"),
    }
}

fn string<'a>(desc: &Schema<'a, '_>) -> Option<&'a str> {
    match desc {
        Schema::Str(slot) => *slot,
        _ => panic!("not a string slot"),
    }
}

fn boolean(desc: &Schema<'_, '_>) -> Option<bool> {
    match desc {
        Schema::Bool(slot) => *slot,
        _ => panic!("not a bool slot"),
    }
}

fn item<'s, 'a, 'k>(desc: &'s Schema<'a, 'k>, i: usize) -> &'s Schema<'a, 'k> {
    match desc {
        Schema::Array(items) => &items[i],
        _ => panic!("not an array"),
    }
}

fn field<'s, 'a, 'k>(desc: &'s Schema<'a, 'k>, key: &str) -> &'s Schema<'a, 'k> {
    match desc {
        Schema::Object(fields) => &fields.iter().find(|(k, _)| *k == key).unwrap().1,
        _ => panic!("not an object"),
    }
}

#[test]
fn ok_empty_obj() {
    let src = r#"{}"#;
    validate::<1>(src).unwrap();
}

#[test]
fn ok_empty_obj_with_whitespace() {
    let src = "   {\r\n\t\n} ";
    validate::<1>(src).unwrap();
}

#[test]
fn err_empty_obj_extra_opening_brace() {
    let src = r#"{{}"#;
    let err = validate::<1>(src).unwrap_err();
    assert_eq!(err.kind(), ErrorKind::UnexpectedToken);
    assert_eq!(err.lineno(), 1);
    assert_eq!(err.col(), 2);
}

#[test]
fn err_empty_obj_extra_closing_brace() {
    let src = r#"{}}"#;
    let err = validate::<1>(src).unwrap_err();
    assert_eq!(err.kind(), ErrorKind::UnexpectedToken);
    assert_eq!(err.lineno(), 1);
    assert_eq!(err.col(), 3);
}

#[test]
fn ok_empty_arr() {
    let src = r#"[]"#;
    validate::<1>(src).unwrap();
}

#[test]
fn ok_empty_arr_with_whitespace() {
    let src = "   [\r\n\t\n] ";
    validate::<1>(src).unwrap();
}

#[test]
fn err_empty_arr_extra_opening_brace() {
    let src = r#"[[]"#;
    let err = validate::<1>(src).unwrap_err();
    assert_eq!(err.kind(), ErrorKind::UnexpectedEof);
    assert_eq!(err.lineno(), 1);
    assert_eq!(err.col(), 3);
}

#[test]
fn err_empty_arr_extra_closing_brace() {
    let src = r#"[]]"#;
    let err = validate::<1>(src).unwrap_err();
    assert_eq!(err.kind(), ErrorKind::UnexpectedToken);
    assert_eq!(err.lineno(), 1);
    assert_eq!(err.col(), 3);
}

#[test]
fn err_empty_arr_trailing_comma() {
    let src = r#"[],"#;
    let err = validate::<1>(src).unwrap_err();
    assert_eq!(err.kind(), ErrorKind::UnexpectedToken);
    assert_eq!(err.lineno(), 1);
    assert_eq!(err.col(), 3);
}

#[test]
fn err_arr_comma_integer() {
    let src = r#"[,1]"#;
    let mut desc = Schema::Array(vec![Schema::Integer(None)]);
    let err = from_str::<1>(src, &mut desc).unwrap_err();
    assert!(integer(item(&desc, 0)).is_none());
    assert_eq!(err.kind(), ErrorKind::UnexpectedToken);
    assert_eq!(err.lineno(), 1);
    assert_eq!(err.col(), 2);
}

#[test]
fn err_arr_only_comma() {
    let src = r#"[,]"#;
    let err = validate::<1>(src).unwrap_err();
    assert_eq!(err.kind(), ErrorKind::UnexpectedToken);
    assert_eq!(err.lineno(), 1);
    assert_eq!(err.col(), 2);
}

#[test]
fn ok_empty_str() {
    let src = r#""""#;
    validate::<0>(src).unwrap();
}

#[test]
fn err_backslash_in_str() {
    let src = r#""\""#;
    let err = validate::<1>(src).unwrap_err();
    assert_eq!(err.kind(), ErrorKind::UnterminatedString);
    assert_eq!(err.lineno(), 1);
    assert_eq!(err.col(), 3);
}

#[test]
fn err_arr_integers_no_comma() {
    let src = r#"[1 1]"#;
    let mut desc = Schema::Array(vec![Schema::Integer(None), Schema::Integer(None)]);
    let err = from_str::<1>(src, &mut desc).unwrap_err();
    assert_eq!(integer(item(&desc, 0)).unwrap(), 1);
    assert!(integer(item(&desc, 1)).is_none());
    assert_eq!(err.kind(), ErrorKind::MissingComma);
    assert_eq!(err.lineno(), 1);
    assert_eq!(err.col(), 4);
}

#[test]
fn err_shallow_depth() {
    let src = r#"{"a":{}}"#;
    let err = validate::<1>(src).unwrap_err();
    assert_eq!(err.kind(), ErrorKind::MaxDepthExceeded);
    assert_eq!(err.lineno(), 1);
    assert_eq!(err.col(), 6);
}

#[test]
fn err_deep_depth() {
    let src = r#"{"a":{"b":{"c":{"d":{"e":{"f":{"g":{"h":{"i":{"j":{"k":{}}}}}}}}}}}}"#;
    let err = validate::<10>(src).unwrap_err();
    assert_eq!(err.kind(), ErrorKind::MaxDepthExceeded);
    assert_eq!(err.lineno(), 1);
    assert_eq!(err.col(), 51);
}

#[test]
fn ok_small_positive_int() {
    let src = r#"{"i":1}"#;
    let mut desc = Schema::Object(vec![("i", Schema::Integer(None))]);
    from_str::<1>(src, &mut desc).unwrap();
    assert_eq!(integer(field(&desc, "i")).unwrap(), 1);
}

#[test]
fn ok_small_negative_int() {
    let src = r#"{"i":-1}"#;
    let mut desc = Schema::Object(vec![("i", Schema::Integer(None))]);
    from_str::<1>(src, &mut desc).unwrap();
    assert_eq!(integer(field(&desc, "i")).unwrap(), -1);
}

#[test]
fn ok_large_positive_int() {
    let src = r#"{"i":12345678}"#;
    let mut desc = Schema::Object(vec![("i", Schema::Integer(None))]);
    from_str::<1>(src, &mut desc).unwrap();
    assert_eq!(integer(field(&desc, "i")).unwrap(), 12345678);
}

#[test]
fn ok_large_negative_int() {
    let src = r#"{"i":-12345678}"#;
    let mut desc = Schema::Object(vec![("i", Schema::Integer(None))]);
    from_str::<1>(src, &mut desc).unwrap();
    assert_eq!(integer(field(&desc, "i")).unwrap(), -12345678);
}

#[test]
fn ok_small_positive_float() {
    let src = r#"{"f":1.0}"#;
    let mut desc = Schema::Object(vec![("f", Schema::Float(None))]);
    from_str::<1>(src, &mut desc).unwrap();
    assert!((float(field(&desc, "f")).unwrap() - 1.0).abs() < 1e-9);
}

#[test]
fn ok_small_negative_float() {
    let src = r#"{"f":-1.0}"#;
    let mut desc = Schema::Object(vec![("f", Schema::Float(None))]);
    from_str::<1>(src, &mut desc).unwrap();
    assert!((float(field(&desc, "f")).unwrap() + 1.0).abs() < 1e-9);
}

#[test]
fn ok_array_of_integers() {
    let src = r#"{"arr":[1,-1]}"#;
    let arr_desc = vec![Schema::Integer(None), Schema::Integer(None), Schema::Integer(None)];
    let mut desc = Schema::Object(vec![("arr", Schema::Array(arr_desc))]);

    from_str::<1>(src, &mut desc).unwrap();
    let arr = field(&desc, "arr");
    assert_eq!(
        [integer(item(arr, 0)), integer(item(arr, 1)), integer(item(arr, 2))],
        [Some(1), Some(-1), None]
    );
}

#[test]
fn ok_array_of_different_types() {
    let src = r#"{"arr":[1,1.0]}"#;
    let arr_desc = vec![Schema::Integer(None), Schema::Float(None)];
    let mut desc = Schema::Object(vec![("arr", Schema::Array(arr_desc))]);

    from_str::<1>(src, &mut desc).unwrap();
    let arr = field(&desc, "arr");
    assert_eq!(integer(item(arr, 0)).unwrap(), 1);
    assert!((float(item(arr, 1)).unwrap() - 1.0).abs() < 1e-9);
}

#[test]
fn ok_array_of_objects() {
    let src = r#"{"arr":[{"name":"foo","val":1},{"name":"bar","val":2}]}"#;

    let obj0_desc = vec![("name", Schema::Str(None)), ("val", Schema::Integer(None))];
    let obj1_desc = vec![("name", Schema::Str(None)), ("val", Schema::Integer(None))];
    let arr_desc = vec![Schema::Object(obj0_desc), Schema::Object(obj1_desc)];
    let mut desc = Schema::Object(vec![("arr", Schema::Array(arr_desc))]);

    from_str::<2>(src, &mut desc).unwrap();
    let arr = field(&desc, "arr");
    assert_eq!(string(field(item(arr, 0), "name")).unwrap(), "foo");
    assert_eq!(integer(field(item(arr, 0), "val")).unwrap(), 1);
    assert_eq!(string(field(item(arr, 1), "name")).unwrap(), "bar");
    assert_eq!(integer(field(item(arr, 1), "val")).unwrap(), 2);
}

#[test]
fn err_nan() {
    let src = r#"{"f":nan}"#;
    let mut desc = Schema::Object(vec![("f", Schema::Float(None))]);
    let err = from_str::<1>(src, &mut desc).unwrap_err();
    assert!(float(field(&desc, "f")).is_none());
    assert_eq!(err.kind(), ErrorKind::UnknownIdentifier);
    assert_eq!(err.lineno(), 1);
    assert_eq!(err.col(), 7);
}

#[test]
fn err_neg_nan() {
    let src = r#"{"f":-nan}"#;
    let mut desc = Schema::Object(vec![("f", Schema::Float(None))]);
    let err = from_str::<1>(src, &mut desc).unwrap_err();
    assert!(float(field(&desc, "f")).is_none());
    assert_eq!(err.kind(), ErrorKind::InvalidNumber);
    assert_eq!(err.lineno(), 1);
    assert_eq!(err.col(), 6);
}

#[test]
fn err_inf() {
    let src = r#"{"f":inf}"#;
    let mut desc = Schema::Object(vec![("f", Schema::Float(None))]);
    let err = from_str::<1>(src, &mut desc).unwrap_err();
    assert!(float(field(&desc, "f")).is_none());
    assert_eq!(err.kind(), ErrorKind::UnknownStartOfToken);
    assert_eq!(err.lineno(), 1);
    assert_eq!(err.col(), 6);
}

#[test]
fn err_neg_inf() {
    let src = r#"{"f":-inf}"#;
    let mut desc = Schema::Object(vec![("f", Schema::Float(None))]);
    let err = from_str::<1>(src, &mut desc).unwrap_err();
    assert!(float(field(&desc, "f")).is_none());
    assert_eq!(err.kind(), ErrorKind::InvalidNumber);
    assert_eq!(err.lineno(), 1);
    assert_eq!(err.col(), 6);
}

fn employee<'a>() -> Schema<'a, 'static> {
    Schema::Object(vec![
        ("name", Schema::Str(None)),
        ("id", Schema::Integer(None)),
        ("phones", Schema::Array(vec![Schema::Str(None), Schema::Str(None)])),
        ("bonus", Schema::Float(None)),
    ])
}

#[test]
fn employees_fixture_fills_every_slot() {
    let src = r#"{
    "employees": [
        {
            "name": "John Smith",
            "id": 1000,
            "phones": ["+44 1234 5678"],
            "bonus": 0.1
        },
        {
            "name": "Jane Doe",
            "id": 1001,
            "phones": ["+44 8765 4321", "+44 4321 5678"],
            "bonus": 0.2
        }
    ]
}"#;
    let mut desc =
        Schema::Object(vec![("employees", Schema::Array(vec![employee(), employee()]))]);
    from_str::<2>(src, &mut desc).unwrap();

    let es = field(&desc, "employees");
    let e0 = item(es, 0);
    assert_eq!(string(field(e0, "name")), Some("John Smith"));
    assert_eq!(integer(field(e0, "id")), Some(1000));
    assert_eq!(string(item(field(e0, "phones"), 0)), Some("+44 1234 5678"));
    assert_eq!(string(item(field(e0, "phones"), 1)), None);
    assert_eq!(float(field(e0, "bonus")), Some(0.1));
    let e1 = item(es, 1);
    assert_eq!(string(field(e1, "name")), Some("Jane Doe"));
    assert_eq!(integer(field(e1, "id")), Some(1001));
    assert_eq!(string(item(field(e1, "phones"), 0)), Some("+44 8765 4321"));
    assert_eq!(string(item(field(e1, "phones"), 1)), Some("+44 4321 5678"));
    assert_eq!(float(field(e1, "bonus")), Some(0.2));
}

#[test]
fn employees_fixture_needs_depth_two() {
    let src = r#"{"employees":[{"name":"John Smith"}]}"#;
    let err = validate::<1>(src).unwrap_err();
    assert_eq!(err.kind(), ErrorKind::MaxDepthExceeded);
    assert_eq!(err.col(), 15);
    validate::<2>(src).unwrap();
}

fn fails(src: &str) -> (ErrorKind, usize, usize) {
    let err = validate::<4>(src).unwrap_err();
    (err.kind(), err.lineno(), err.col())
}

#[test]
fn arrays_do_not_count_as_depth() {
    validate::<0>("[[[[[[1]]]]]]").unwrap();
    validate::<1>(r#"[[[{"a":[[1]]}]]]"#).unwrap();
    assert_eq!(validate::<0>("[{}]").unwrap_err().kind(), ErrorKind::MaxDepthExceeded);
}

#[test]
fn scalars_are_documents() {
    validate::<0>("true").unwrap();
    validate::<0>("false").unwrap();
    validate::<0>("null").unwrap();
    validate::<0>(" 12 ").unwrap();
    validate::<0>("-0.5").unwrap();
    validate::<0>(r#""a\"b""#).unwrap();
}

#[test]
fn line_and_column_follow_line_feeds() {
    assert_eq!(fails("{\n  \"a\": 1,\n  ?"), (ErrorKind::UnknownStartOfToken, 3, 3));
    assert_eq!(fails("\n\n\n"), (ErrorKind::UnexpectedEof, 4, 0));
    assert_eq!(fails(""), (ErrorKind::UnexpectedEof, 1, 0));
}

#[test]
fn every_error_kind_has_an_input() {
    assert_eq!(fails("1.").0, ErrorKind::InvalidNumber);
    assert_eq!(fails("[1,]"), (ErrorKind::UnexpectedTrailingComma, 1, 4));
    assert_eq!(fails("[1 2]"), (ErrorKind::MissingComma, 1, 4));
    assert_eq!(fails("\"a\u{1}\""), (ErrorKind::UnexpectedControlCharacterInString, 1, 3));
    assert_eq!(fails("["), (ErrorKind::UnexpectedEof, 1, 1));
    assert_eq!(fails("}"), (ErrorKind::UnexpectedToken, 1, 1));
    assert_eq!(fails("trve"), (ErrorKind::UnknownIdentifier, 1, 3));
    assert_eq!(fails("tru"), (ErrorKind::UnexpectedEof, 1, 3));
    assert_eq!(fails("@"), (ErrorKind::UnknownStartOfToken, 1, 1));
    assert_eq!(fails("\"abc"), (ErrorKind::UnterminatedString, 1, 4));
    assert_eq!(fails(r#"{"a":{"b":{"c":{"d":{"e":1}}}}}"#).0, ErrorKind::MaxDepthExceeded);

    let mut desc = Schema::Array(vec![Schema::Integer(None)]);
    let err = from_str::<1>("[1,2]", &mut desc).unwrap_err();
    assert_eq!((err.kind(), err.lineno(), err.col()), (ErrorKind::InsufficientArrayLength, 1, 4));
    assert_eq!(integer(item(&desc, 0)), Some(1));

    let mut desc = Schema::Integer(None);
    let err = from_str::<1>("true", &mut desc).unwrap_err();
    assert_eq!((err.kind(), err.lineno(), err.col()), (ErrorKind::MismatchedTypes, 1, 4));
    assert_eq!(integer(&desc), None);
}

#[test]
fn numbers_are_read_as_the_standard_decoders_read_them() {
    assert_eq!(fails("1.").0, ErrorKind::InvalidNumber);
    assert_eq!(fails("-").0, ErrorKind::InvalidNumber);
    assert_eq!(fails("--1").0, ErrorKind::InvalidNumber);
    assert_eq!(fails("1-2").0, ErrorKind::InvalidNumber);
    assert_eq!(fails("1.2.3"), (ErrorKind::InvalidNumber, 1, 5));
    assert_eq!(fails("-.").0, ErrorKind::InvalidNumber);
    assert_eq!(fails("9223372036854775808").0, ErrorKind::InvalidNumber);
    assert_eq!(fails("-9223372036854775809").0, ErrorKind::InvalidNumber);
    validate::<0>("-.5").unwrap();
    validate::<0>("007").unwrap();

    let mut desc = Schema::Integer(None);
    from_str::<0>("9223372036854775807", &mut desc).unwrap();
    assert_eq!(integer(&desc), Some(i64::MAX));
    from_str::<0>("-9223372036854775808", &mut desc).unwrap();
    assert_eq!(integer(&desc), Some(i64::MIN));
    from_str::<0>("-0", &mut desc).unwrap();
    assert_eq!(integer(&desc), Some(0));
    from_str::<0>("0012", &mut desc).unwrap();
    assert_eq!(integer(&desc), Some(12));
}

#[test]
fn a_float_slot_takes_integers_and_decimals() {
    let mut desc = Schema::Float(None);
    from_str::<0>("42", &mut desc).unwrap();
    assert!(matches!(desc, Schema::Float(Some(Number::Integer(42)))));
    assert_eq!(float(&desc), Some(42.0));
    from_str::<0>(" -12.25 ", &mut desc).unwrap();
    assert!(matches!(desc, Schema::Float(Some(Number::Decimal("-12.25")))));
    assert_eq!(float(&desc), Some(-12.25));

    let mut desc = Schema::Integer(None);
    assert_eq!(from_str::<0>("1.5", &mut desc).unwrap_err().kind(), ErrorKind::MismatchedTypes);
}

#[test]
fn strings_are_slices_of_the_text() {
    let src = r#"["a\"b", "tab\there", "ünï", ""]"#;
    let mut desc = Schema::Array(vec![
        Schema::Str(None),
        Schema::Str(None),
        Schema::Str(None),
        Schema::Str(None),
    ]);
    from_str::<0>(src, &mut desc).unwrap();
    assert_eq!(string(item(&desc, 0)), Some(r#"a\"b"#));
    assert_eq!(string(item(&desc, 1)), Some(r#"tab\there"#));
    assert_eq!(string(item(&desc, 2)), Some("ünï"));
    assert_eq!(string(item(&desc, 3)), Some(""));
}

#[test]
fn a_backslash_escapes_exactly_the_next_character() {
    validate::<0>(r#""\\""#).unwrap();
    assert_eq!(fails(r#""\""#), (ErrorKind::UnterminatedString, 1, 3));
    assert_eq!(fails(r#""\\\""#), (ErrorKind::UnterminatedString, 1, 5));
    validate::<0>(r#""\\\\""#).unwrap();
    assert_eq!(fails(r#""\\"""#), (ErrorKind::UnexpectedToken, 1, 5));

    let mut desc = Schema::Str(None);
    from_str::<0>(r#""C:\\dir\\""#, &mut desc).unwrap();
    assert_eq!(string(&desc), Some(r#"C:\\dir\\"#));
    from_str::<0>(r#""\\\"x""#, &mut desc).unwrap();
    assert_eq!(string(&desc), Some(r#"\\\"x"#));

    let mut desc = Schema::Array(vec![Schema::Str(None), Schema::Str(None)]);
    from_str::<0>(r#"["a\\", "b"]"#, &mut desc).unwrap();
    assert_eq!(string(item(&desc, 0)), Some(r#"a\\"#));
    assert_eq!(string(item(&desc, 1)), Some("b"));
}

#[test]
fn columns_count_characters() {
    assert_eq!(fails("\"ünï\" ?"), (ErrorKind::UnexpectedToken, 1, 7));
}

#[test]
fn a_control_character_is_refused_wherever_it_stands() {
    assert_eq!(fails("\"a\\\u{1}b\""), (ErrorKind::UnexpectedControlCharacterInString, 1, 4));
    assert_eq!(fails("\"a\\b\u{7f}\""), (ErrorKind::UnexpectedControlCharacterInString, 1, 5));
    assert_eq!(fails("\"\n\"").0, ErrorKind::UnexpectedControlCharacterInString);
    assert_eq!(fails("\"\u{9f}\"").0, ErrorKind::UnexpectedControlCharacterInString);
    validate::<0>("\"\u{a0}\"").unwrap();
}

#[test]
fn null_and_empty_collections_unset_slots() {
    let mut desc = Schema::Object(vec![
        ("a", Schema::Integer(Some(1))),
        ("b", Schema::Array(vec![Schema::Bool(Some(true)), Schema::Str(Some("x"))])),
    ]);
    from_str::<1>(r#"{"a":null}"#, &mut desc).unwrap();
    assert_eq!(integer(field(&desc, "a")), None);
    assert_eq!(boolean(item(field(&desc, "b"), 0)), Some(true));

    from_str::<1>(r#"{"b":[]}"#, &mut desc).unwrap();
    assert_eq!(boolean(item(field(&desc, "b"), 0)), None);
    assert_eq!(string(item(field(&desc, "b"), 1)), None);

    let mut desc = Schema::Object(vec![
        ("a", Schema::Integer(Some(1))),
        ("b", Schema::Array(vec![Schema::Bool(Some(true))])),
    ]);
    from_str::<1>("{}", &mut desc).unwrap();
    assert_eq!(integer(field(&desc, "a")), None);
    assert_eq!(boolean(item(field(&desc, "b"), 0)), None);

    let mut desc = Schema::Object(vec![("a", Schema::Integer(Some(1)))]);
    from_str::<1>("null", &mut desc).unwrap();
    assert_eq!(integer(field(&desc, "a")), None);
}

#[test]
fn keys_that_are_not_listed_are_read_and_ignored() {
    let mut desc = Schema::Object(vec![("b", Schema::Bool(None))]);
    from_str::<2>(r#"{"a":{"x":[1,"2",null]},"b":true,"c":1.5}"#, &mut desc).unwrap();
    assert_eq!(boolean(field(&desc, "b")), Some(true));

    let err = from_str::<2>(r#"{"a":{"x":[1 2]},"b":false}"#, &mut desc).unwrap_err();
    assert_eq!(err.kind(), ErrorKind::MissingComma);
    assert_eq!(boolean(field(&desc, "b")), Some(true));
}

#[test]
fn the_first_schema_under_a_key_gets_the_value() {
    let mut desc =
        Schema::Object(vec![("a", Schema::Integer(None)), ("a", Schema::Integer(None))]);
    from_str::<1>(r#"{"a":1,"a":2}"#, &mut desc).unwrap();
    match &desc {
        Schema::Object(fields) => {
            assert_eq!(integer(&fields[0].1), Some(2));
            assert_eq!(integer(&fields[1].1), None);
        }
        _ => unreachable!(),
    }
}

#[test]
fn slots_keep_what_was_read_before_an_error() {
    let mut desc = Schema::Object(vec![
        ("a", Schema::Integer(None)),
        ("b", Schema::Str(None)),
        ("c", Schema::Bool(None)),
    ]);
    let err = from_str::<1>(r#"{"a":7,"b":"x","c":1}"#, &mut desc).unwrap_err();
    assert_eq!(err.kind(), ErrorKind::MismatchedTypes);
    assert_eq!(integer(field(&desc, "a")), Some(7));
    assert_eq!(string(field(&desc, "b")), Some("x"));
    assert_eq!(boolean(field(&desc, "c")), None);
}

#[test]
fn validate_agrees_with_from_str_on_a_schema_that_fits() {
    for src in ["[1,2]", "[1,", "[1 2]", "[true]", "[1,2,]", "[1,2]]"] {
        let mut desc = Schema::Array(vec![Schema::Float(None), Schema::Float(None)]);
        let with = from_str::<0>(src, &mut desc).map_err(|e| (e.kind(), e.lineno(), e.col()));
        let without = validate::<0>(src).map_err(|e| (e.kind(), e.lineno(), e.col()));
        if src == "[true]" {
            assert_eq!(with, Err((ErrorKind::MismatchedTypes, 1, 5)));
            assert_eq!(without, Ok(()));
        } else {
            assert_eq!(with, without);
        }
    }
}

fn lexemes(alphabet: &[char], longest: usize) -> Vec<String> {
    let mut all = vec![String::new()];
    let mut from = 0;
    for _ in 0..longest {
        let upto = all.len();
        for i in from..upto {
            for c in alphabet {
                let mut longer = all[i].clone();
                longer.push(*c);
                all.push(longer);
            }
        }
        from = upto;
    }
    all
}

#[test]
fn integers_are_what_i64_from_str_reads() {
    let mut texts = lexemes(&['0', '1', '9', '-'], 6);
    texts.push("9223372036854775807".to_string());
    texts.push("9223372036854775808".to_string());
    texts.push("-9223372036854775808".to_string());
    texts.push("-9223372036854775809".to_string());
    texts.push("00000000000000000000000000000000000007".to_string());
    texts.push("18446744073709551616".to_string());
    let mut read = 0;
    for text in &texts {
        if !text.starts_with(|c: char| c.is_ascii_digit() || c == '-') {
            continue;
        }
        let mut desc = Schema::Integer(None);
        let got = from_str::<0>(text, &mut desc);
        match text.parse::<i64>() {
            Ok(value) => {
                got.unwrap();
                assert_eq!(integer(&desc), Some(value), "{:?}", text);
                read += 1;
            }
            Err(_) => {
                let err = got.unwrap_err();
                assert_eq!(err.kind(), ErrorKind::InvalidNumber, "{:?}", text);
                assert_eq!(err.col(), text.len());
                assert_eq!(integer(&desc), None);
            }
        }
    }
    assert!(read > 500);
}

#[test]
fn decimals_are_what_f64_from_str_reads() {
    let mut read = 0;
    for text in &lexemes(&['0', '7', '.', '-'], 6) {
        if !text.starts_with(|c: char| c.is_ascii_digit() || c == '-') || !text.contains('.') {
            continue;
        }
        let mut desc = Schema::Float(None);
        let got = from_str::<0>(text, &mut desc);
        match text.parse::<f64>() {
            Ok(value) if !text.ends_with('.') => {
                got.unwrap();
                assert!(matches!(desc, Schema::Float(Some(Number::Decimal(t))) if t == text));
                assert_eq!(float(&desc), Some(value), "{:?}", text);
                read += 1;
            }
            _ => {
                let err = got.unwrap_err();
                assert_eq!(err.kind(), ErrorKind::InvalidNumber, "{:?}", text);
                assert_eq!(err.col(), text.len());
                assert!(matches!(desc, Schema::Float(None)));
            }
        }
    }
    assert!(read > 100);
}

#[test]
fn control_characters_are_those_of_char_is_control() {
    for code in 0..=0x10FFFF_u32 {
        if let Some(c) = char::from_u32(code) {
            assert_eq!(quick::qjson::tokenizer::control(c), c.is_control(), "{:x}", code);
            assert_eq!(quick::qjson::number::digit(c), c.is_ascii_digit(), "{:x}", code);
        }
    }
}
