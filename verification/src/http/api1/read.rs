//! Read filters as text.
//!
//! A filter is written as a path of field names, `[]` and braces:
//!
//! ```text
//! root   := struct | fields | '*'?
//! filter := '.'? (struct | array | field | '*'?)
//! struct := '{' fields '}'
//! fields := field (',' field)*
//! field  := key filter
//! key    := name ('@' language)?
//! array  := '[]' filter
//! ```
//!
//! Of the alternatives the first that reads is taken. A list of fields
//! without braces stands only at the root: further down a comma would not
//! say which struct goes on.

use vstd::prelude::*;
use vstd::string::StringExecFns;

use crate::error::Error;
use crate::read::{
    fields_view, language_of_tag, populated, Filter, FilterView, KeyView, Language, StructKey,
};
use crate::utility::text::{chars_of, field_name, name_end, substring};

verus! {

/// A filter read from a text, and where the reading stopped.
pub struct Parsed {
    pub filter: FilterView,
    pub next: int,
}

/// A language tag read from a text, if there was one.
pub struct ParsedLanguage {
    pub language: Option<Language>,
    pub next: int,
}

/// A field key read from a text.
pub struct ParsedKey {
    pub key: KeyView,
    pub next: int,
}

/// A field read from a text: its key and what is selected below it.
pub struct ParsedField {
    pub key: KeyView,
    pub filter: FilterView,
    pub next: int,
}

/// `('@' language)?`: an at sign and the tag of a language, or nothing. An
/// at sign that no known tag follows is not taken.
pub open spec fn language_at(text: Seq<char>, at: int) -> ParsedLanguage {
    if 0 <= at < text.len() && text[at] == '@' {
        let end = name_end(text, at + 1);
        if at + 1 < end <= text.len() {
            match language_of_tag(text.subrange(at + 1, end)) {
                Some(language) => ParsedLanguage { language: Some(language), next: end },
                None => ParsedLanguage { language: None, next: at },
            }
        } else {
            ParsedLanguage { language: None, next: at }
        }
    } else {
        ParsedLanguage { language: None, next: at }
    }
}

/// `key := name ('@' language)?`.
pub open spec fn struct_key_at(text: Seq<char>, at: int) -> Option<ParsedKey> {
    let end = name_end(text, at);
    if 0 <= at < end <= text.len() {
        let tag = language_at(text, end);
        Some(
            ParsedKey {
                key: KeyView { name: text.subrange(at, end), language: tag.language },
                next: tag.next,
            },
        )
    } else {
        None
    }
}

/// `field := key filter`.
pub open spec fn field_at(text: Seq<char>, at: int) -> Option<ParsedField>
    decreases text.len() - at, 0int,
{
    match struct_key_at(text, at) {
        Some(found) => if at < found.next <= text.len() {
            let below = filter_at(text, found.next);
            Some(ParsedField { key: found.key, filter: below.filter, next: below.next })
        } else {
            None
        },
        None => None,
    }
}

/// The rest of a list of fields, `(',' field)*`, read at `at` with the
/// fields read so far. A comma that no field follows is not taken.
pub open spec fn fields_tail_at(text: Seq<char>, at: int, so_far: Seq<(KeyView, FilterView)>)
    -> Parsed
    decreases text.len() - at, 1int,
{
    if 0 <= at < text.len() && text[at] == ',' {
        match field_at(text, at + 1) {
            Some(found) => if at < found.next <= text.len() {
                fields_tail_at(text, found.next, so_far.push((found.key, found.filter)))
            } else {
                Parsed { filter: FilterView::Struct(so_far), next: at }
            },
            None => Parsed { filter: FilterView::Struct(so_far), next: at },
        }
    } else {
        Parsed { filter: FilterView::Struct(so_far), next: at }
    }
}

/// `fields := field (',' field)*`.
pub open spec fn struct_fields_at(text: Seq<char>, at: int) -> Option<Parsed>
    decreases text.len() - at, 1int,
{
    match field_at(text, at) {
        Some(first) => if at < first.next <= text.len() {
            Some(fields_tail_at(text, first.next, seq![(first.key, first.filter)]))
        } else {
            None
        },
        None => None,
    }
}

/// `struct := '{' fields '}'`.
pub open spec fn struct_at(text: Seq<char>, at: int) -> Option<Parsed>
    decreases text.len() - at, 2int,
{
    if 0 <= at < text.len() && text[at] == '{' {
        match struct_fields_at(text, at + 1) {
            Some(inner) => if 0 <= inner.next < text.len() && text[inner.next] == '}' {
                Some(Parsed { filter: inner.filter, next: inner.next + 1 })
            } else {
                None
            },
            None => None,
        }
    } else {
        None
    }
}

/// `array := '[]' filter`.
pub open spec fn array_at(text: Seq<char>, at: int) -> Option<Parsed>
    decreases text.len() - at, 2int,
{
    if 0 <= at && at + 2 <= text.len() && text[at] == '[' && text[at + 1] == ']' {
        let below = filter_at(text, at + 2);
        Some(Parsed { filter: FilterView::Array(Box::new(below.filter)), next: below.next })
    } else {
        None
    }
}

/// `'*'?`: everything, with or without its star.
pub open spec fn all_at(text: Seq<char>, at: int) -> Parsed {
    if 0 <= at < text.len() && text[at] == '*' {
        Parsed { filter: FilterView::All, next: at + 1 }
    } else {
        Parsed { filter: FilterView::All, next: at }
    }
}

/// `filter := '.'? (struct | array | field | '*'?)`. It reads at every place,
/// if only nothing.
pub open spec fn filter_at(text: Seq<char>, at: int) -> Parsed
    decreases text.len() - at, 3int,
{
    if at < 0 || at > text.len() {
        Parsed { filter: FilterView::All, next: at }
    } else {
        let from = if at < text.len() && text[at] == '.' {
            at + 1
        } else {
            at
        };
        match struct_at(text, from) {
            Some(found) => found,
            None => match array_at(text, from) {
                Some(found) => found,
                None => match field_at(text, from) {
                    Some(found) => Parsed {
                        filter: FilterView::Struct(seq![(found.key, found.filter)]),
                        next: found.next,
                    },
                    None => all_at(text, from),
                },
            },
        }
    }
}

/// `root := struct | fields | '*'?`, read at the start of a text.
pub open spec fn root_filter_at(text: Seq<char>) -> Parsed {
    match struct_at(text, 0) {
        Some(found) => found,
        None => match struct_fields_at(text, 0) {
            Some(found) => found,
            None => all_at(text, 0),
        },
    }
}

/// The filter that a text stands for, if all of the text is a filter.
pub open spec fn filter_of_text(text: Seq<char>) -> Option<FilterView> {
    if root_filter_at(text).next == text.len() {
        Some(root_filter_at(text).filter)
    } else {
        None
    }
}

/// A filter read from a text.
#[derive(Debug)]
pub struct Reading {
    pub filter: Filter,
    /// The number of characters read.
    pub next: usize,
}

/// A field read from a text.
struct FieldReading {
    key: StructKey,
    filter: Filter,
    next: usize,
}

/// An optional reading is the one the grammar gives: past `at`, within the
/// text, and with a field in every struct.
pub open spec fn reads(
    reading: Option<Reading>,
    parsed: Option<Parsed>,
    at: usize,
    text: Seq<char>,
) -> bool {
    match (reading, parsed) {
        (Some(r), Some(p)) => r.filter@ == p.filter && r.next == p.next && at < r.next
            <= text.len() && populated(r.filter@),
        (None, None) => true,
        _ => false,
    }
}

/// Reads `('@' language)?`.
fn language(text: &Vec<char>, at: usize) -> (r: (Option<Language>, usize))
    requires
        at <= text.len(),
    ensures
        r.0 == language_at(text@, at as int).language,
        r.1 == language_at(text@, at as int).next,
        at <= r.1 <= text.len(),
{
    if at < text.len() && text[at] == '@' {
        let end = field_name(text, at + 1);
        if end > at + 1 {
            let tag = substring(text, at + 1, end);
            match Language::from_tag(&tag) {
                Some(language) => {
                    return (Some(language), end);
                },
                None => {},
            }
        }
    }
    (None, at)
}

/// Reads `key := name ('@' language)?`.
fn struct_key(text: &Vec<char>, at: usize) -> (r: Option<(StructKey, usize)>)
    requires
        at <= text.len(),
    ensures
        match (r, struct_key_at(text@, at as int)) {
            (Some(found), Some(parsed)) => found.0@ == parsed.key && found.1 == parsed.next && at
                < found.1 <= text.len(),
            (None, None) => true,
            _ => false,
        },
{
    let end = field_name(text, at);
    if end == at {
        return None;
    }
    let name = substring(text, at, end);
    let (language, next) = language(text, end);
    Some((StructKey { name, language }, next))
}

/// Reads `field := key filter`.
fn field(text: &Vec<char>, at: usize) -> (r: Option<FieldReading>)
    requires
        at <= text.len(),
    ensures
        match (r, field_at(text@, at as int)) {
            (Some(found), Some(parsed)) => found.key@ == parsed.key && found.filter@
                == parsed.filter && found.next == parsed.next && at < found.next <= text.len()
                && populated(found.filter@),
            (None, None) => true,
            _ => false,
        },
    decreases text.len() - at, 0int,
{
    match struct_key(text, at) {
        Some((key, next)) => {
            let below = filter(text, next);
            Some(FieldReading { key, filter: below.filter, next: below.next })
        },
        None => None,
    }
}

/// Reads `fields := field (',' field)*`.
fn struct_fields(text: &Vec<char>, at: usize) -> (r: Option<Reading>)
    requires
        at <= text.len(),
    ensures
        reads(r, struct_fields_at(text@, at as int), at, text@),
    decreases text.len() - at, 1int,
{
    let first = match field(text, at) {
        Some(first) => first,
        None => {
            return None;
        },
    };
    let FieldReading { key, filter: below, next: first_next } = first;
    let mut next = first_next;
    let mut fields: Vec<(StructKey, Filter)> = Vec::new();
    fields.push((key, below));
    assert(fields_view(fields@) =~= seq![(key@, below@)]);
    loop
        invariant_except_break
            struct_fields_at(text@, at as int) == Some(
                fields_tail_at(text@, next as int, fields_view(fields@)),
            ),
        invariant
            at < next <= text.len(),
            fields@.len() >= 1,
            forall|i: int| 0 <= i < fields@.len() ==> populated((#[trigger] fields@[i]).1@),
        ensures
            struct_fields_at(text@, at as int) == Some(
                Parsed { filter: FilterView::Struct(fields_view(fields@)), next: next as int },
            ),
        decreases text.len() - next,
    {
        if !(next < text.len() && text[next] == ',') {
            break ;
        }
        let found = match field(text, next + 1) {
            Some(found) => found,
            None => {
                break ;
            },
        };
        let FieldReading { key, filter: below, next: after } = found;
        let ghost before = fields_view(fields@);
        fields.push((key, below));
        assert(fields_view(fields@) =~= before.push((key@, below@)));
        next = after;
    }
    let filter = Filter::Struct(fields);
    assert(populated(filter@)) by {
        assert forall|i: int| 0 <= i < fields_view(fields@).len() implies populated(
            (#[trigger] fields_view(fields@)[i]).1,
        ) by {
            assert(populated(fields@[i].1@));
        }
    }
    Some(Reading { filter, next })
}

/// Reads `struct := '{' fields '}'`.
fn struct_(text: &Vec<char>, at: usize) -> (r: Option<Reading>)
    requires
        at <= text.len(),
    ensures
        reads(r, struct_at(text@, at as int), at, text@),
    decreases text.len() - at, 2int,
{
    if at < text.len() && text[at] == '{' {
        match struct_fields(text, at + 1) {
            Some(inner) => {
                let Reading { filter, next } = inner;
                if next < text.len() && text[next] == '}' {
                    return Some(Reading { filter, next: next + 1 });
                }
            },
            None => {},
        }
    }
    None
}

/// Reads `array := '[]' filter`.
fn array(text: &Vec<char>, at: usize) -> (r: Option<Reading>)
    requires
        at <= text.len(),
    ensures
        reads(r, array_at(text@, at as int), at, text@),
    decreases text.len() - at, 2int,
{
    if text.len() - at < 2 || text[at] != '[' || text[at + 1] != ']' {
        return None;
    }
    let below = filter(text, at + 2);
    Some(Reading { filter: Filter::Array(Box::new(below.filter)), next: below.next })
}

/// Reads `'*'?`.
fn all(text: &Vec<char>, at: usize) -> (r: Reading)
    requires
        at <= text.len(),
    ensures
        r.filter@ == all_at(text@, at as int).filter,
        r.next == all_at(text@, at as int).next,
        at <= r.next <= text.len(),
        populated(r.filter@),
{
    if at < text.len() && text[at] == '*' {
        Reading { filter: Filter::All, next: at + 1 }
    } else {
        Reading { filter: Filter::All, next: at }
    }
}

/// Reads `filter := '.'? (struct | array | field | '*'?)`.
fn filter(text: &Vec<char>, at: usize) -> (r: Reading)
    requires
        at <= text.len(),
    ensures
        r.filter@ == filter_at(text@, at as int).filter,
        r.next == filter_at(text@, at as int).next,
        at <= r.next <= text.len(),
        populated(r.filter@),
    decreases text.len() - at, 3int,
{
    let from = if at < text.len() && text[at] == '.' {
        at + 1
    } else {
        at
    };
    match struct_(text, from) {
        Some(found) => {
            return found;
        },
        None => {},
    }
    match array(text, from) {
        Some(found) => {
            return found;
        },
        None => {},
    }
    match field(text, from) {
        Some(found) => {
            let FieldReading { key, filter: below, next } = found;
            let mut fields: Vec<(StructKey, Filter)> = Vec::new();
            fields.push((key, below));
            assert(fields_view(fields@) =~= seq![(key@, below@)]);
            let filter = Filter::Struct(fields);
            return Reading { filter, next };
        },
        None => {},
    }
    all(text, from)
}

/// Reads a filter from the front of a text, as far as it goes.
///
/// At the root a list of fields may stand without braces. The reading never
/// fails: a text that starts with no filter reads as everything, with no
/// character read.
pub fn root_filter(input: &str) -> (r: Reading)
    ensures
        r.filter@ == root_filter_at(input@).filter,
        r.next == root_filter_at(input@).next,
        r.next <= input@.len(),
        populated(r.filter@),
{
    let text = chars_of(input);
    match struct_(&text, 0) {
        Some(found) => {
            return found;
        },
        None => {},
    }
    match struct_fields(&text, 0) {
        Some(found) => {
            return found;
        },
        None => {},
    }
    all(&text, 0)
}

/// A read filter that came as text.
#[derive(Debug, PartialEq, Eq)]
pub struct FilterString(pub Filter);

impl FilterString {
    /// Reads a filter from a text, all of it. A text that goes on behind the
    /// filter is invalid.
    pub fn from_str(input: &str) -> (r: Result<FilterString, Error>)
        ensures
            match filter_of_text(input@) {
                Some(filter) => r matches Ok(read) && read.0@ == filter && populated(read.0@),
                None => r matches Err(Error::Invalid(detail)) && detail@
                    == "filter parse error: unexpected characters after the filter"@,
            },
    {
        let Reading { filter, next } = root_filter(input);
        let length = input.unicode_len();
        if next == length {
            Ok(FilterString(filter))
        } else {
            Err(
                Error::Invalid(
                    String::from_str("filter parse error: unexpected characters after the filter"),
                ),
            )
        }
    }
}

} // verus!
