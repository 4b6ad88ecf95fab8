//! Read filters: which part of a row is handed back.

use vstd::prelude::*;
use vstd::string::StringExecFns;

verus! {

/// The languages a text column may be held in.
#[derive(Debug, Clone, Copy, PartialEq, Eq, Structural, Hash)]
pub enum Language {
    Unspecified,
    Japanese,
    English,
    German,
    French,
    ChineseSimplified,
    ChineseTraditional,
    Korean,
}

/// The language that a tag names.
pub open spec fn language_of_tag(tag: Seq<char>) -> Option<Language> {
    if tag == "none"@ {
        Some(Language::Unspecified)
    } else if tag == "ja"@ {
        Some(Language::Japanese)
    } else if tag == "en"@ {
        Some(Language::English)
    } else if tag == "de"@ {
        Some(Language::German)
    } else if tag == "fr"@ {
        Some(Language::French)
    } else if tag == "chs"@ {
        Some(Language::ChineseSimplified)
    } else if tag == "cht"@ {
        Some(Language::ChineseTraditional)
    } else if tag == "kr"@ {
        Some(Language::Korean)
    } else {
        None
    }
}

impl Language {
    /// The language that a tag names, if it names one.
    pub fn from_tag(tag: &String) -> (r: Option<Language>)
        ensures
            r == language_of_tag(tag@),
    {
        if *tag == String::from_str("none") {
            Some(Language::Unspecified)
        } else if *tag == String::from_str("ja") {
            Some(Language::Japanese)
        } else if *tag == String::from_str("en") {
            Some(Language::English)
        } else if *tag == String::from_str("de") {
            Some(Language::German)
        } else if *tag == String::from_str("fr") {
            Some(Language::French)
        } else if *tag == String::from_str("chs") {
            Some(Language::ChineseSimplified)
        } else if *tag == String::from_str("cht") {
            Some(Language::ChineseTraditional)
        } else if *tag == String::from_str("kr") {
            Some(Language::Korean)
        } else {
            None
        }
    }
}

/// The name of a field, and the language it is wanted in, if any one.
#[derive(Debug, PartialEq, Eq)]
pub struct StructKey {
    pub name: String,
    pub language: Option<Language>,
}

/// A field key as a plain value.
pub struct KeyView {
    pub name: Seq<char>,
    pub language: Option<Language>,
}

impl View for StructKey {
    type V = KeyView;

    open spec fn view(&self) -> KeyView {
        KeyView { name: self.name@, language: self.language }
    }
}

/// A selection within a row: everything, some fields of a struct, or
/// something of every element of an array. The fields of a struct keep the
/// order in which they were asked for, and a field may be asked for twice.
#[derive(Debug, PartialEq, Eq)]
pub enum Filter {
    All,
    Struct(Vec<(StructKey, Filter)>),
    Array(Box<Filter>),
}

/// A read filter as a plain value.
pub enum FilterView {
    All,
    Struct(Seq<(KeyView, FilterView)>),
    Array(Box<FilterView>),
}

/// The plain values of the fields of a struct selection.
pub open spec fn fields_view(fields: Seq<(StructKey, Filter)>) -> Seq<(KeyView, FilterView)>
    decreases fields,
{
    Seq::new(
        fields.len(),
        |i: int|
            if 0 <= i < fields.len() {
                (fields[i].0@, fields[i].1.view())
            } else {
                (KeyView { name: Seq::empty(), language: None }, FilterView::All)
            },
    )
}

impl Filter {
    /// The filter as a plain value.
    pub open spec fn view(&self) -> FilterView
        decreases self,
    {
        match self {
            Filter::All => FilterView::All,
            Filter::Struct(fields) => FilterView::Struct(fields_view(fields@)),
            Filter::Array(child) => FilterView::Array(Box::new(child.view())),
        }
    }
}

/// Every struct selection in the filter names at least one field.
pub open spec fn populated(filter: FilterView) -> bool
    decreases filter,
{
    match filter {
        FilterView::All => true,
        FilterView::Struct(fields) => fields.len() >= 1 && forall|i: int|
            0 <= i < fields.len() ==> populated((#[trigger] fields[i]).1),
        FilterView::Array(child) => populated(*child),
    }
}

} // verus!
