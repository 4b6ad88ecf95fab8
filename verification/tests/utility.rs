use boilmaster::utility::assoc::{find_entry, find_key, find_name};
use boilmaster::utility::text::{chars_of, field_name, order, substring, Order};
use boilmaster::utility::warnings::Warnings;
use boilmaster::version::key::VersionKey;

#[test]
fn warnings_accumulate_in_order() {
    let warned = Warnings::new(1)
        .with_warning("first".to_string())
        .with_warnings(vec!["second".to_string(), "third".to_string()]);
    assert_eq!(*warned.get(), 1);
    assert_eq!(warned.warning_count(), 3);
    let (value, warnings) = warned.decompose();
    assert_eq!(value, 1);
    assert_eq!(warnings, vec!["first", "second", "third"]);
}

#[test]
fn map_keeps_the_warnings() {
    let (value, warnings) =
        Warnings::new(20).with_warning("w".to_string()).map(|n: i32| n + 1).decompose();
    assert_eq!(value, 21);
    assert_eq!(warnings, vec!["w"]);
    let (value, warnings) = Warnings::new("x").map(|s: &str| s.len()).decompose();
    assert_eq!(value, 1);
    assert!(warnings.is_empty());
}

#[test]
fn and_then_appends_the_warnings_of_the_step() {
    let (value, warnings) = Warnings::new(2)
        .with_warning("before".to_string())
        .and_then(|n: i32| Warnings::new(n * 2).with_warning("during".to_string()))
        .decompose();
    assert_eq!(value, 4);
    assert_eq!(warnings, vec!["before", "during"]);
}

#[test]
fn texts_are_ordered_character_by_character() {
    let order_of = |a: &str, b: &str| order(&a.to_string(), &b.to_string());
    assert_eq!(order_of("a", "b"), Order::Before);
    assert_eq!(order_of("b", "a"), Order::After);
    assert_eq!(order_of("a", "a"), Order::Same);
    assert_eq!(order_of("", ""), Order::Same);
    assert_eq!(order_of("", "a"), Order::Before);
    assert_eq!(order_of("a", ""), Order::After);
    assert_eq!(order_of("ab", "abc"), Order::Before);
    assert_eq!(order_of("abd", "abc"), Order::After);
    assert_eq!(order_of("B", "a"), Order::Before);
    assert_eq!(order_of("z", "é"), Order::Before);
}

#[test]
fn strings_and_characters_convert_both_ways() {
    assert_eq!(chars_of("aé/"), vec!['a', 'é', '/']);
    assert!(chars_of("").is_empty());
    let text = chars_of("héllo.world");
    assert_eq!(substring(&text, 1, 5), "éllo");
    assert_eq!(substring(&text, 3, 3), "");
    assert_eq!(substring(&text, 0, 11), "héllo.world");
}

#[test]
fn names_end_at_the_first_other_character() {
    let text = chars_of("abc9Z.de");
    assert_eq!(field_name(&text, 0), 5);
    assert_eq!(field_name(&text, 5), 5);
    assert_eq!(field_name(&text, 6), 8);
    assert_eq!(field_name(&text, 8), 8);
    assert_eq!(field_name(&chars_of("é"), 0), 0);
    assert_eq!(field_name(&chars_of("a_b"), 0), 1);
}

#[test]
fn lookups_find_the_first_occurrence() {
    let names = vec!["a".to_string(), "b".to_string(), "a".to_string()];
    assert_eq!(find_name(&names, &"a".to_string()), Some(0));
    assert_eq!(find_name(&names, &"b".to_string()), Some(1));
    assert_eq!(find_name(&names, &"c".to_string()), None);
    let entries = vec![("x".to_string(), 1), ("y".to_string(), 2)];
    assert_eq!(find_entry(&entries, &"y".to_string()), Some(1));
    assert_eq!(find_entry(&entries, &"".to_string()), None);
    let keyed = vec![(VersionKey(4), 'a'), (VersionKey(2), 'b')];
    assert_eq!(find_key(&keyed, VersionKey(2)), Some(1));
    assert_eq!(find_key(&keyed, VersionKey(3)), None);
}
