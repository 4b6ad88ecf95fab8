use boilmaster::error::Error;
use boilmaster::http::api1::read::{root_filter, FilterString};
use boilmaster::read::{Filter, Language, StructKey};

fn test_parse(input: &str) -> Filter {
    let reading = root_filter(input);
    assert_eq!(reading.next, input.chars().count());
    reading.filter
}

fn test_language_struct(entries: Vec<((&str, Option<Language>), Filter)>) -> Filter {
    Filter::Struct(
        entries
            .into_iter()
            .map(|((key, language), value)| (StructKey { name: key.to_string(), language }, value))
            .collect(),
    )
}

fn test_struct(entries: Vec<(&str, Filter)>) -> Filter {
    test_language_struct(entries.into_iter().map(|(key, value)| ((key, None), value)).collect())
}

fn test_array(child: Filter) -> Filter {
    Filter::Array(Box::new(child))
}

#[test]
fn parse_all() {
    let got = test_parse("*");
    assert_eq!(got, Filter::All);

    let got = test_parse("");
    assert_eq!(got, Filter::All);
}

#[test]
fn read_parse_struct_simple() {
    let got = test_parse("{a.*}");
    assert_eq!(got, test_struct(vec![("a", Filter::All)]));

    let got = test_parse("a");
    assert_eq!(got, test_struct(vec![("a", Filter::All)]));
}

#[test]
fn parse_struct_language() {
    let got = test_parse("{a@en.*}");
    assert_eq!(got, test_language_struct(vec![(("a", Some(Language::English)), Filter::All)]));

    let got = test_parse("a@en");
    assert_eq!(got, test_language_struct(vec![(("a", Some(Language::English)), Filter::All)]));
}

fn nested_expected() -> Filter {
    test_struct(vec![("a", test_struct(vec![("b", test_struct(vec![("c", Filter::All)]))]))])
}

#[test]
fn read_parse_struct_nested() {
    let got = test_parse("{a.{b.{c.*}}}");
    assert_eq!(got, nested_expected());

    let got = test_parse("a.b.c");
    assert_eq!(got, nested_expected());
}

fn multiple_fields_expected() -> Filter {
    test_struct(vec![(
        "a",
        test_struct(vec![("b", test_struct(vec![("c", Filter::All)])), ("d", Filter::All)]),
    )])
}

#[test]
fn parse_struct_multiple_fields() {
    let got = test_parse("{a.{b.{c.*},d.*}}");
    assert_eq!(got, multiple_fields_expected());

    let got = test_parse("a.{b.c,d}");
    assert_eq!(got, multiple_fields_expected());
}

fn root_multiple_expected() -> Filter {
    test_struct(vec![("a", test_struct(vec![("b", Filter::All)])), ("c", Filter::All)])
}

#[test]
fn parse_root_multiple_fields() {
    let got = test_parse("{a.{b.*},c.*}");
    assert_eq!(got, root_multiple_expected());

    let got = test_parse("a.b,c");
    assert_eq!(got, root_multiple_expected());
}

fn shared_path_expected() -> Filter {
    test_struct(vec![
        ("a", test_struct(vec![("b", Filter::All)])),
        ("a", test_struct(vec![("c", Filter::All)])),
    ])
}

#[test]
fn parse_root_shared_path() {
    let got = test_parse("{a.{b.*},a.{c.*}}");
    assert_eq!(got, shared_path_expected());

    let got = test_parse("a.b,a.c");
    assert_eq!(got, shared_path_expected());
}

#[test]
fn read_parse_array_simple() {
    let got = test_parse("a.[].*");
    assert_eq!(got, test_struct(vec![("a", test_array(Filter::All))]));

    let got = test_parse("a[]");
    assert_eq!(got, test_struct(vec![("a", test_array(Filter::All))]));
}

fn array_nested_expected() -> Filter {
    test_struct(vec![("a", test_array(test_array(test_struct(vec![("b", Filter::All)]))))])
}

#[test]
fn read_parse_array_nested() {
    let got = test_parse("{a.[].[].{b.*}}");
    assert_eq!(got, array_nested_expected());

    let got = test_parse("a[][].b");
    assert_eq!(got, array_nested_expected());
}

#[test]
fn filter_string_takes_the_whole_text() {
    let read = FilterString::from_str("a.b,c").expect("a filter");
    assert_eq!(read.0, root_multiple_expected());
    assert_eq!(FilterString::from_str("").expect("a filter").0, Filter::All);
    assert_eq!(FilterString::from_str("*").expect("a filter").0, Filter::All);
}

#[test]
fn filter_string_refuses_trailing_text() {
    for input in ["a.b,c}", "a,", "{a", "a b", "**", "a.b..", "a@xx", "a,,b", "é", "a.{b,c"] {
        match FilterString::from_str(input) {
            Err(Error::Invalid(detail)) => {
                assert_eq!(detail, "filter parse error: unexpected characters after the filter")
            }
            other => panic!("{input:?} read as {other:?}"),
        }
    }
}

#[test]
fn root_filter_stops_where_the_filter_ends() {
    let reading = root_filter("a.b}c");
    assert_eq!(reading.next, 3);
    assert_eq!(reading.filter, test_struct(vec![("a", test_struct(vec![("b", Filter::All)]))]));

    let reading = root_filter("a,");
    assert_eq!(reading.next, 1);

    let reading = root_filter("{a");
    assert_eq!(reading.next, 0);
    assert_eq!(reading.filter, Filter::All);
}

#[test]
fn a_trailing_dot_selects_everything() {
    assert_eq!(test_parse("a.b."), test_parse("a.b"));
    assert_eq!(test_parse("a.b.*"), test_parse("a.b"));
    assert_eq!(test_parse("a.[]."), test_parse("a[]"));
}

#[test]
fn unknown_language_tag_is_not_taken() {
    let reading = root_filter("a@xx");
    assert_eq!(reading.next, 1);
    assert_eq!(reading.filter, test_struct(vec![("a", Filter::All)]));
}

#[test]
fn every_language_tag_is_read() {
    let cases = [
        ("none", Language::Unspecified),
        ("ja", Language::Japanese),
        ("en", Language::English),
        ("de", Language::German),
        ("fr", Language::French),
        ("chs", Language::ChineseSimplified),
        ("cht", Language::ChineseTraditional),
        ("kr", Language::Korean),
    ];
    for (tag, language) in cases {
        assert_eq!(Language::from_tag(&tag.to_string()), Some(language));
        let got = test_parse(&format!("name@{tag}.child"));
        assert_eq!(
            got,
            test_language_struct(vec![(
                ("name", Some(language)),
                test_struct(vec![("child", Filter::All)])
            )])
        );
    }
    assert_eq!(Language::from_tag(&"EN".to_string()), None);
    assert_eq!(Language::from_tag(&"".to_string()), None);
}

#[test]
fn nested_commas_need_braces() {
    // Below the root a comma goes on with the root's fields.
    let got = test_parse("a.b,c.d");
    assert_eq!(
        got,
        test_struct(vec![
            ("a", test_struct(vec![("b", Filter::All)])),
            ("c", test_struct(vec![("d", Filter::All)])),
        ])
    );
    let got = test_parse("a.{b,c.d}");
    assert_eq!(
        got,
        test_struct(vec![(
            "a",
            test_struct(vec![("b", Filter::All), ("c", test_struct(vec![("d", Filter::All)]))])
        )])
    );
    // Nothing is chained behind a closing brace.
    assert_eq!(root_filter("a.{b,c}.d").next, 7);
}

#[test]
fn parsed_structs_have_fields() {
    fn populated(filter: &Filter) -> bool {
        match filter {
            Filter::All => true,
            Filter::Struct(fields) => !fields.is_empty() && fields.iter().all(|f| populated(&f.1)),
            Filter::Array(child) => populated(child),
        }
    }
    for input in ["a", "a.b,c", "{a.[].{b,c@ja}}", "a[][].b", "", "*"] {
        assert!(populated(&test_parse(input)));
    }
}
