use quick::qini::{parse, Error, ErrorKind, Param};

fn collect(ini: &str) -> Result<Vec<Param<'_>>, Error> {
    let mut parser = parse(ini);
    let mut params = Vec::new();
    while let Some(item) = parser.next() {
        params.push(item?);
    }
    Ok(params)
}

fn ok(ini: &str, expected: &[(&str, &str, &str)]) {
    let mut params = collect(ini).unwrap();
    params.reverse();

    for (section, key, value) in expected {
        let param = params.pop().unwrap();
        assert_eq!(param.section, *section);
        assert_eq!(param.key, *key);
        assert_eq!(param.value, *value);
    }

    assert!(params.is_empty());
}

fn err(ini: &str, lineno: usize, kind: ErrorKind) {
    let err = collect(ini).unwrap_err();

    assert_eq!(err.lineno(), lineno);
    assert_eq!(err.kind(), kind);
}

#[test]
fn key_value_equals_delimiter() {
    ok("foo = 1", &[("", "foo", "1")]);
}

#[test]
fn key_value_colon_delimiter() {
    ok("foo : 1", &[("", "foo", "1")]);
}

#[test]
fn no_sections_lf() {
    ok("foo = 1\nbar = 2\n", &[("", "foo", "1"), ("", "bar", "2")]);
}

#[test]
fn no_sections_crlf() {
    ok("foo = 1\r\nbar = 2\r\n", &[("", "foo", "1"), ("", "bar", "2")]);
}

#[test]
fn one_sections() {
    ok("[foo]\nfoo = 1\nbar = 2", &[("foo", "foo", "1"), ("foo", "bar", "2")]);
}

#[test]
fn multiple_sections() {
    ok(
        r#"
    [foo]
    foo = 1
    bar = 2

    [bar]
    foo = 3
    bar = 4
    "#,
        &[
            ("foo", "foo", "1"),
            ("foo", "bar", "2"),
            ("bar", "foo", "3"),
            ("bar", "bar", "4"),
        ],
    );
}

#[test]
fn global_vars_with_sections() {
    ok(
        r#"
    foo = 1
    bar = 2

    [foo]
    foo = 3
    bar = 4

    [bar]
    foo = 5
    bar = 6
    "#,
        &[
            ("", "foo", "1"),
            ("", "bar", "2"),
            ("foo", "foo", "3"),
            ("foo", "bar", "4"),
            ("bar", "foo", "5"),
            ("bar", "bar", "6"),
        ],
    );
}

#[test]
fn empty_value() {
    ok("foo =", &[("", "foo", "")]);
}

#[test]
fn comment_semicolon() {
    ok("; comment\nfoo = 1", &[("", "foo", "1")]);
}

#[test]
fn comment_octothorpe() {
    ok("# comment\nfoo = 1", &[("", "foo", "1")]);
}

#[test]
fn inline_comments_semicolon_part_of_value() {
    ok("foo = 1 ; comment", &[("", "foo", "1 ; comment")]);
}

#[test]
fn inline_comments_octothorpe_part_of_value() {
    ok("foo = 1 # comment", &[("", "foo", "1 # comment")]);
}

#[test]
fn repeated_keys() {
    ok("foo = 1\nfoo = 2", &[("", "foo", "1"), ("", "foo", "2")]);
}

#[test]
fn multiple_key_value_delimiters_equals_equals() {
    ok("foo = 1 = 2", &[("", "foo", "1 = 2")]);
}

#[test]
fn multiple_key_value_delimiters_colon_colon() {
    ok("foo : 1 : 2", &[("", "foo", "1 : 2")]);
}

#[test]
fn mixed_key_value_delimiters_equals_colon() {
    ok("foo = 1 : 2", &[("", "foo", "1 : 2")]);
}

#[test]
fn mixed_key_value_delimiters_colon_equals() {
    ok("foo : 1 = 2", &[("", "foo", "1 = 2")]);
}

#[test]
fn subsections() {
    ok("[foo.bar]\nbaz = 1", &[("foo.bar", "baz", "1")]);
}

#[test]
fn empty_section() {
    err("[]", 1, ErrorKind::InvalidSection);
}

#[test]
fn empty_key() {
    err("= 1", 1, ErrorKind::InvalidKey);
}

#[test]
fn missing_key_value_delimiter() {
    err("foo", 1, ErrorKind::UnexpectedEol);
}

#[test]
fn comment_after_section() {
    err("[foo] ; disallowed", 1, ErrorKind::UnexpectedEol);
}

#[test]
fn invalid_symbol_in_section() {
    err("[bad section name]", 1, ErrorKind::InvalidSection);
}

#[test]
fn invalid_symbol_in_key() {
    err("bad key name = value", 1, ErrorKind::InvalidKey);
}

#[test]
fn google_dns_configuration() {
    const CONFIGURATION: &str = r#"
description = google's primary dns server

[server]
ip   = 8.8.8.8
port = 53
"#;
    ok(
        CONFIGURATION,
        &[
            ("", "description", "google's primary dns server"),
            ("server", "ip", "8.8.8.8"),
            ("server", "port", "53"),
        ],
    );
}

#[test]
fn reading_goes_on_behind_an_error() {
    let mut parser = parse("a = 1\n[bad\nb = 2\n\n= 3\n[ok_1.x ]\nc:4");
    let mut seen = Vec::new();
    while let Some(item) = parser.next() {
        seen.push(match item {
            Ok(param) => Ok((param.section, param.key, param.value)),
            Err(e) => Err((e.lineno(), e.kind())),
        });
    }
    assert_eq!(
        seen,
        vec![
            Ok(("", "a", "1")),
            Err((2, ErrorKind::UnexpectedEol)),
            Ok(("", "b", "2")),
            Err((5, ErrorKind::InvalidKey)),
            Ok(("ok_1.x", "c", "4")),
        ]
    );
    assert!(parser.next().is_none());
}

#[test]
fn an_opening_bracket_alone_is_no_section() {
    err("[", 1, ErrorKind::UnexpectedEol);
    err("\n\n  [  \n", 3, ErrorKind::UnexpectedEol);
    err("[a]]", 1, ErrorKind::InvalidSection);
    ok("[ a ]\nk=v", &[("a", "k", "v")]);
}

#[test]
fn white_space_of_any_kind_is_trimmed() {
    ok("\u{a0}\u{2003}k\u{3000}=\u{85} v w \u{1680}\n", &[("", "k", "v w")]);
    ok("\t k\t:\tv\x0b\x0c\r\n", &[("", "k", "v")]);
    err("k\u{200b}= v", 1, ErrorKind::InvalidKey);
    err("ké = v", 1, ErrorKind::InvalidKey);
}

#[test]
fn an_empty_text_has_no_parameters() {
    assert!(parse("").next().is_none());
    assert!(parse("\n\n  \n# c\n;").next().is_none());
}

#[test]
fn white_space_is_that_of_char_is_whitespace() {
    for code in 0..=0x10FFFF_u32 {
        if let Some(c) = char::from_u32(code) {
            assert_eq!(quick::qini::space(c), c.is_whitespace(), "{:x}", code);
            assert_eq!(
                quick::qini::name_char(c),
                c.is_ascii_alphanumeric() || c == '_' || c == '.',
                "{:x}",
                code
            );
        }
    }
}

#[test]
fn lines_are_those_of_str_lines() {
    let texts = [
        "",
        "\n",
        "a=1",
        "a=1\n",
        "a=1\n\n",
        "\r\n",
        "a=1\r\nb=2\r",
        "\n a = 1 \n\n",
        "x\ry=2\n",
    ];
    for text in texts {
        let mut parser = parse(text);
        let mut seen = Vec::new();
        while let Some(item) = parser.next() {
            seen.push(item.map(|p| (p.key, p.value)).map_err(|e| e.lineno()));
        }
        let mut expected = Vec::new();
        for (i, line) in text.lines().enumerate() {
            let line = line.trim();
            if line.is_empty() {
                continue;
            }
            match line.split_once(['=', ':']) {
                Some((key, value)) if key.trim().chars().all(quick::qini::name_char) => {
                    expected.push(Ok((key.trim(), value.trim())))
                }
                _ => expected.push(Err(i + 1)),
            }
        }
        assert_eq!(seen, expected, "{:?}", text);
    }
}
