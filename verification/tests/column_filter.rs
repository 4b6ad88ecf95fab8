use boilmaster::error::Error;
use boilmaster::http::column_filter::{group, merge_array, merge_struct, ColumnFilter, StructFilter};

const MISMATCH: &str = "mismatched filters: array filter dropped in favour of struct filter";

fn test_parse(input: &str) -> ColumnFilter {
    let reading = group(input).expect("parse should not fail");
    assert_eq!(reading.next, input.chars().count());
    reading.filter
}

fn struct_filter(entries: Vec<(&'static str, Option<ColumnFilter>)>) -> ColumnFilter {
    ColumnFilter::Struct(StructFilter::from_entries(
        entries.into_iter().map(|(key, value)| (key.to_string(), value)).collect(),
    ))
}

fn array_filter(child: Option<ColumnFilter>) -> ColumnFilter {
    ColumnFilter::Array(child.map(Box::new))
}

#[test]
fn column_filter_parse_struct_simple() {
    let out = test_parse("a");
    let expected = struct_filter(vec![("a", None)]);
    assert_eq!(out, expected);
}

#[test]
fn column_filter_parse_struct_nested() {
    let out = test_parse("a.b");
    let expected = struct_filter(vec![("a", Some(struct_filter(vec![("b", None)])))]);
    assert_eq!(out, expected);
}

#[test]
fn column_filter_parse_array_simple() {
    let out = test_parse("[]");
    let expected = ColumnFilter::Array(None);
    assert_eq!(out, expected);
}

#[test]
fn column_filter_parse_array_nested() {
    let out = test_parse("a.[].[].b");
    let expected = struct_filter(vec![(
        "a",
        Some(array_filter(Some(array_filter(Some(struct_filter(vec![("b", None)])))))),
    )]);
    assert_eq!(out, expected);
}

// a,b -> {a, b}
#[test]
fn merge_struct_simple() {
    let out = test_parse("a,b");
    let expected = struct_filter(vec![("a", None), ("b", None)]);
    assert_eq!(out, expected);
}

// a,a.b -> {a}
#[test]
fn merge_struct_widen() {
    let out = test_parse("a,a.b");
    let expected = struct_filter(vec![("a", None)]);
    assert_eq!(out, expected);
}

// a.b,a.c -> {a: {b, c}}
#[test]
fn merge_struct_nested() {
    let out = test_parse("a.b,a.c");
    let expected =
        struct_filter(vec![("a", Some(struct_filter(vec![("b", None), ("c", None)])))]);
    assert_eq!(out, expected);
}

// a.(b,c),a.d -> {a: {b, c, d}}
#[test]
fn merge_nested_group() {
    let out = test_parse("a.(b,c),a.d");
    let expected = struct_filter(vec![(
        "a",
        Some(struct_filter(vec![("b", None), ("c", None), ("d", None)])),
    )]);
    assert_eq!(out, expected);
}

// [].a,[].b -> [{a, b}]
#[test]
fn merge_array_children() {
    let out = test_parse("[].a,[].b");
    let expected = array_filter(Some(struct_filter(vec![("a", None), ("b", None)])));
    assert_eq!(out, expected);
}

#[test]
fn merge_is_idempotent() {
    for input in ["a", "a.b,a.c", "[].a,[].b", "a.(b,c.[].d),e,f.[]", "z,y,x.w"] {
        let mut warnings = Vec::new();
        let merged = test_parse(input).merge(test_parse(input), &mut warnings);
        assert_eq!(merged, test_parse(input));
        assert!(warnings.is_empty());
    }
}

#[test]
fn merge_commutes() {
    let pairs = [
        ("a", "b"),
        ("a.b", "a"),
        ("a.b,c", "c.d,a.e"),
        ("[].a", "[]"),
        ("[].a.b", "[].a.c,[].d"),
        ("a", "[]"),
        ("x.[].y", "x.z"),
        ("b,a", "a,b"),
    ];
    for (left, right) in pairs {
        let mut one = Vec::new();
        let mut other = Vec::new();
        let forward = test_parse(left).merge(test_parse(right), &mut one);
        let backward = test_parse(right).merge(test_parse(left), &mut other);
        assert_eq!(forward, backward, "{left} and {right}");
        assert_eq!(one, other);
    }
}

#[test]
fn selecting_all_absorbs() {
    let mut warnings = Vec::new();
    let narrow = Some(Box::new(test_parse("a.b")));
    assert_eq!(merge_array(narrow, None, &mut warnings), None);
    let narrow = Some(Box::new(test_parse("a.b")));
    assert_eq!(merge_array(None, narrow, &mut warnings), None);
    assert_eq!(merge_array(None, None, &mut warnings), None);
    assert!(warnings.is_empty());

    // The same below a field, whichever side selects all.
    assert_eq!(test_parse("a.b.c,a.b"), test_parse("a.b"));
    assert_eq!(test_parse("a.b,a.b.c"), test_parse("a.b"));
    assert_eq!(test_parse("[].a,[]"), ColumnFilter::Array(None));
}

#[test]
fn merge_struct_joins_fields() {
    let mut warnings = Vec::new();
    let target = StructFilter::from_entries(vec![
        ("a".to_string(), Some(test_parse("x"))),
        ("b".to_string(), None),
    ]);
    let source = StructFilter::from_entries(vec![
        ("a".to_string(), Some(test_parse("y"))),
        ("b".to_string(), Some(test_parse("z"))),
        ("c".to_string(), Some(test_parse("w"))),
    ]);
    let merged = merge_struct(target, source, &mut warnings);
    let expected = StructFilter::from_entries(vec![
        ("a".to_string(), Some(test_parse("x,y"))),
        ("b".to_string(), None),
        ("c".to_string(), Some(test_parse("w"))),
    ]);
    assert_eq!(merged, expected);
    assert_eq!(merged.len(), 3);
    assert!(warnings.is_empty());
}

#[test]
fn mismatched_filters_keep_the_struct_and_warn() {
    let mut warnings = Vec::new();
    let merged = test_parse("a").merge(test_parse("[]"), &mut warnings);
    assert_eq!(merged, test_parse("a"));
    assert_eq!(warnings, vec![MISMATCH.to_string()]);

    let mut warnings = Vec::new();
    let merged = test_parse("[].b").merge(test_parse("a"), &mut warnings);
    assert_eq!(merged, test_parse("a"));
    assert_eq!(warnings, vec![MISMATCH.to_string()]);

    let reading = group("a.[],a.b,c.d,c.[].e").expect("a filter");
    assert_eq!(reading.next, 19);
    assert_eq!(reading.filter, test_parse("a.b,c.d"));
    assert_eq!(reading.warnings, vec![MISMATCH.to_string(), MISMATCH.to_string()]);
}

#[test]
fn warnings_of_an_abandoned_group_are_dropped() {
    // The group in parentheses is never closed, so the chain after `a` is not taken.
    let reading = group("a.(b,[]").expect("a filter");
    assert_eq!(reading.next, 1);
    assert_eq!(reading.filter, test_parse("a"));
    assert!(reading.warnings.is_empty());
}

#[test]
fn fields_are_kept_in_the_order_of_their_names() {
    let filter = StructFilter::from_entries(vec![
        ("b".to_string(), None),
        ("a".to_string(), None),
        ("ab".to_string(), None),
        ("B".to_string(), None),
        ("a".to_string(), Some(test_parse("x"))),
    ]);
    let names: Vec<&str> = filter.entries().iter().map(|entry| entry.0.as_str()).collect();
    assert_eq!(names, vec!["B", "a", "ab", "b"]);
    assert_eq!(filter.entries()[1].1, Some(test_parse("x")));
    assert_eq!(StructFilter::new().len(), 0);
    assert_eq!(
        StructFilter::new().with("k".to_string(), None),
        StructFilter::single("k".to_string(), None)
    );
    assert_eq!(test_parse("b,a,ab,B"), test_parse("B,a,ab,b"));
}

#[test]
fn parse_takes_the_whole_text() {
    let (filter, warnings) = ColumnFilter::parse("a.b,a.c").expect("a filter").decompose();
    assert_eq!(filter, test_parse("a.b,a.c"));
    assert!(warnings.is_empty());

    let (filter, warnings) = ColumnFilter::parse("a,[]").expect("a filter").decompose();
    assert_eq!(filter, test_parse("a"));
    assert_eq!(warnings, vec![MISMATCH.to_string()]);
}

#[test]
fn parse_refuses_what_is_no_filter() {
    for input in ["", ",a", ".a", "*", "(", "()", "(a", "é"] {
        match ColumnFilter::parse(input) {
            Err(Error::Invalid(detail)) => {
                assert_eq!(detail, "filter parse error: expected a field name, `[]` or `(`")
            }
            other => panic!("{input:?} read as {other:?}"),
        }
        assert!(group(input).is_none());
    }
    for input in ["a,", "a.", "a b", "a)", "a.(b", "a,,b", "a.b*", "(a)b"] {
        match ColumnFilter::parse(input) {
            Err(Error::Invalid(detail)) => {
                assert_eq!(detail, "filter parse error: unexpected characters after the filter")
            }
            other => panic!("{input:?} read as {other:?}"),
        }
    }
}

#[test]
fn parentheses_group() {
    assert_eq!(test_parse("(a,b)"), test_parse("a,b"));
    assert_eq!(test_parse("a.(b,c)"), test_parse("a.b,a.c"));
    // Nothing is chained behind a closing parenthesis.
    let reading = group("a.(b,c).d").expect("a filter");
    assert_eq!(reading.next, 7);
    assert_eq!(reading.filter, test_parse("a.b,a.c"));
    assert_eq!(test_parse("[].(a,b.c)"), test_parse("[].a,[].b.c"));
}

#[test]
fn joined_texts_read_as_the_merge_in_either_order() {
    let texts = ["a", "a.b", "b.c,a.d", "[].x", "(a,b.(c,d))", "a.[].b,c", "z.y.x,z.y.w"];
    for left in texts {
        for right in texts {
            let mut warnings = Vec::new();
            let merged = test_parse(left).merge(test_parse(right), &mut warnings);
            let forward = group(&format!("{left},{right}")).expect("a filter");
            let backward = group(&format!("{right},{left}")).expect("a filter");
            assert_eq!(forward.next, left.len() + right.len() + 1);
            assert_eq!(forward.filter, merged, "{left},{right}");
            assert_eq!(backward.filter, merged, "{right},{left}");
        }
    }
}
