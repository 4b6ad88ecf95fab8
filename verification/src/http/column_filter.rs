//! Column filters: which columns of a row a request asks for.
//!
//! A filter is written as a comma-separated list of paths, each a chain of
//! field names and `[]` joined by dots, with parentheses to group. The paths
//! of a list are merged into one filter: selections of the same field
//! combine, and a selection of a whole field takes in any narrower selection
//! below it.

use vstd::prelude::*;
use vstd::string::StringExecFns;

use crate::utility::text::{
    lemma_precedes_asymmetric, lemma_precedes_total, lemma_precedes_transitive, order, precedes,
    Order,
};
use crate::error::Error;
use crate::utility::assoc::{
    distinct, keys_of, lemma_position, lemma_position_none, lemma_position_push, lookup,
};
use crate::utility::text::{chars_of, field_name, name_end, substring};
use crate::utility::text::texts;
use crate::utility::warnings::Warnings;

verus! {

/// The fields selected from a struct, each with what is selected below it.
/// No field is named twice, and the fields are kept in the order of their
/// names, so that two selections of the same fields are the same value: this
/// holds of every value of the type.
#[derive(Debug, PartialEq, Eq)]
pub struct StructFilter {
    entries: Vec<(String, Option<ColumnFilter>)>,
}

/// What is selected below an array: a filter for its elements, or all of
/// each element.
pub type ArrayFilter = Option<Box<ColumnFilter>>;

/// A selection within a row. Where a filter is optional, its absence selects
/// everything at that place.
#[derive(Debug, PartialEq, Eq)]
pub enum ColumnFilter {
    Struct(StructFilter),
    Array(ArrayFilter),
}

/// A column filter as a plain value.
pub enum FilterView {
    Struct(Seq<(Seq<char>, Option<FilterView>)>),
    Array(Option<Box<FilterView>>),
}

/// The plain value of an optional filter.
pub open spec fn slot_view(slot: Option<ColumnFilter>) -> Option<FilterView>
    decreases slot,
{
    match slot {
        Some(filter) => Some(filter.view()),
        None => None,
    }
}

/// The plain values of the entries of a struct filter.
pub open spec fn entries_view(entries: Seq<(String, Option<ColumnFilter>)>) -> Seq<
    (Seq<char>, Option<FilterView>),
>
    decreases entries,
{
    Seq::new(
        entries.len(),
        |i: int|
            if 0 <= i < entries.len() {
                (entries[i].0@, slot_view(entries[i].1))
            } else {
                (Seq::empty(), None)
            },
    )
}

impl StructFilter {
    /// The entries as plain values.
    pub closed spec fn view(&self) -> Seq<(Seq<char>, Option<FilterView>)>
        decreases self,
    {
        entries_view(self.entries@)
    }

    #[verifier::type_invariant]
    closed spec fn names_in_order(&self) -> bool {
        ascending(entries_view(self.entries@))
    }
}

/// The plain value of what is selected below an array.
pub open spec fn array_view(child: ArrayFilter) -> Option<Box<FilterView>>
    decreases child,
{
    match child {
        Some(inner) => Some(Box::new(inner.view())),
        None => None,
    }
}

impl ColumnFilter {
    /// The filter as a plain value.
    pub open spec fn view(&self) -> FilterView
        decreases self,
    {
        match self {
            ColumnFilter::Struct(fields) => FilterView::Struct(fields.view()),
            ColumnFilter::Array(child) => FilterView::Array(array_view(*child)),
        }
    }
}

/// The entries of a struct filter as plain values.
pub type Entries = Seq<(Seq<char>, Option<FilterView>)>;

/// Two optional filters merged: all, where either selects all; else the
/// merge of the two.
pub open spec fn merge_slot_view(target: Option<FilterView>, source: Option<FilterView>) -> Option<
    FilterView,
>
    decreases target, source,
{
    match (target, source) {
        (Some(a), Some(b)) => Some(merge_view(a, b)),
        _ => None,
    }
}

/// Two lists of entries merged: every field of either, in the order of the
/// names, and a field of both with its two selections merged.
pub open spec fn merge_entries_view(target: Entries, source: Entries) -> Entries
    decreases target, source,
{
    if target.len() == 0 {
        source
    } else if source.len() == 0 {
        target
    } else {
        let x = target[target.len() - 1];
        let y = source[source.len() - 1];
        if precedes(y.0, x.0) {
            merge_entries_view(target.subrange(0, target.len() - 1), source).push(x)
        } else if precedes(x.0, y.0) {
            merge_entries_view(target, source.subrange(0, source.len() - 1)).push(y)
        } else {
            merge_entries_view(
                target.subrange(0, target.len() - 1),
                source.subrange(0, source.len() - 1),
            ).push((x.0, merge_slot_view(x.1, y.1)))
        }
    }
}

/// Two filters merged. A struct filter and an array filter do not merge: the
/// struct filter is kept and the array filter dropped.
pub open spec fn merge_view(target: FilterView, source: FilterView) -> FilterView
    decreases target, source,
{
    match (target, source) {
        (FilterView::Struct(t), FilterView::Struct(s)) => FilterView::Struct(
            merge_entries_view(t, s),
        ),
        (FilterView::Array(t), FilterView::Array(s)) => FilterView::Array(
            match (t, s) {
                (Some(a), Some(b)) => Some(Box::new(merge_view(*a, *b))),
                _ => None,
            },
        ),
        (FilterView::Struct(t), FilterView::Array(_)) => FilterView::Struct(t),
        (FilterView::Array(_), FilterView::Struct(s)) => FilterView::Struct(s),
    }
}

/// How many times a struct filter met an array filter while two optional
/// filters were merged.
pub open spec fn slot_conflicts(target: Option<FilterView>, source: Option<FilterView>) -> nat
    decreases target, source,
{
    match (target, source) {
        (Some(a), Some(b)) => conflicts(a, b),
        _ => 0,
    }
}

/// How many times a struct filter met an array filter while two lists of
/// entries were merged.
pub open spec fn entries_conflicts(target: Entries, source: Entries) -> nat
    decreases target, source,
{
    if target.len() == 0 || source.len() == 0 {
        0
    } else {
        let x = target[target.len() - 1];
        let y = source[source.len() - 1];
        if precedes(y.0, x.0) {
            entries_conflicts(target.subrange(0, target.len() - 1), source)
        } else if precedes(x.0, y.0) {
            entries_conflicts(target, source.subrange(0, source.len() - 1))
        } else {
            entries_conflicts(
                target.subrange(0, target.len() - 1),
                source.subrange(0, source.len() - 1),
            ) + slot_conflicts(x.1, y.1)
        }
    }
}

/// How many times a struct filter met an array filter while two filters were
/// merged.
pub open spec fn conflicts(target: FilterView, source: FilterView) -> nat
    decreases target, source,
{
    match (target, source) {
        (FilterView::Struct(t), FilterView::Struct(s)) => entries_conflicts(t, s),
        (FilterView::Array(t), FilterView::Array(s)) => match (t, s) {
            (Some(a), Some(b)) => conflicts(*a, *b),
            _ => 0,
        },
        _ => 1,
    }
}

/// The names of the entries come in order, none twice.
pub open spec fn ascending(entries: Entries) -> bool {
    forall|i: int, j: int| 0 <= i < j < entries.len() ==> precedes(entries[i].0, entries[j].0)
}

/// The names of every struct in the filter come in order, none twice.
pub open spec fn canonical(filter: FilterView) -> bool
    decreases filter,
{
    match filter {
        FilterView::Struct(entries) => ascending(entries) && forall|i: int|
            0 <= i < entries.len() && (#[trigger] entries[i]).1 is Some ==> canonical(
                entries[i].1->Some_0,
            ),
        FilterView::Array(Some(child)) => canonical(*child),
        FilterView::Array(None) => true,
    }
}

/// Merging a filter with itself changes nothing.
pub proof fn lemma_merge_idempotent(filter: FilterView)
    ensures
        merge_view(filter, filter) == filter,
        conflicts(filter, filter) == 0,
    decreases filter,
{
    match filter {
        FilterView::Struct(entries) => {
            lemma_merge_entries_idempotent(entries);
        },
        FilterView::Array(Some(child)) => {
            lemma_merge_idempotent(*child);
        },
        FilterView::Array(None) => {},
    }
}

/// Merging a list of entries with itself changes nothing.
pub proof fn lemma_merge_entries_idempotent(entries: Entries)
    ensures
        merge_entries_view(entries, entries) == entries,
        entries_conflicts(entries, entries) == 0,
    decreases entries,
{
    if entries.len() > 0 {
        let x = entries[entries.len() - 1];
        let front = entries.subrange(0, entries.len() - 1);
        lemma_precedes_asymmetric(x.0, x.0);
        lemma_merge_entries_idempotent(front);
        match x.1 {
            Some(child) => {
                lemma_merge_idempotent(child);
                assert(merge_slot_view(x.1, x.1) == x.1);
                assert(slot_conflicts(x.1, x.1) == 0);
            },
            None => {
                assert(merge_slot_view(x.1, x.1) == x.1);
                assert(slot_conflicts(x.1, x.1) == 0);
            },
        }
        assert(merge_entries_view(entries, entries) == merge_entries_view(front, front).push(
            (x.0, merge_slot_view(x.1, x.1)),
        ));
        assert(entries_conflicts(entries, entries) == entries_conflicts(front, front)
            + slot_conflicts(x.1, x.1));
        assert(front.push(x) =~= entries);
    } else {
        assert(merge_entries_view(entries, entries) == entries);
    }
}

/// Merging two filters gives the same whichever comes first.
pub proof fn lemma_merge_commutes(a: FilterView, b: FilterView)
    ensures
        merge_view(a, b) == merge_view(b, a),
        conflicts(a, b) == conflicts(b, a),
    decreases a, b,
{
    match (a, b) {
        (FilterView::Struct(t), FilterView::Struct(s)) => {
            lemma_merge_entries_commute(t, s);
        },
        (FilterView::Array(Some(x)), FilterView::Array(Some(y))) => {
            lemma_merge_commutes(*x, *y);
        },
        _ => {},
    }
}

/// Merging two lists of entries gives the same whichever comes first.
pub proof fn lemma_merge_entries_commute(t: Entries, s: Entries)
    ensures
        merge_entries_view(t, s) == merge_entries_view(s, t),
        entries_conflicts(t, s) == entries_conflicts(s, t),
    decreases t, s,
{
    if t.len() > 0 && s.len() > 0 {
        let x = t[t.len() - 1];
        let y = s[s.len() - 1];
        let t_front = t.subrange(0, t.len() - 1);
        let s_front = s.subrange(0, s.len() - 1);
        lemma_precedes_asymmetric(x.0, y.0);
        lemma_precedes_total(x.0, y.0);
        if precedes(y.0, x.0) {
            lemma_merge_entries_commute(t_front, s);
            assert(merge_entries_view(t, s) == merge_entries_view(t_front, s).push(x));
            assert(merge_entries_view(s, t) == merge_entries_view(s, t_front).push(x));
        } else if precedes(x.0, y.0) {
            lemma_merge_entries_commute(t, s_front);
            assert(merge_entries_view(t, s) == merge_entries_view(t, s_front).push(y));
            assert(merge_entries_view(s, t) == merge_entries_view(s_front, t).push(y));
        } else {
            lemma_merge_entries_commute(t_front, s_front);
            match (x.1, y.1) {
                (Some(c), Some(d)) => {
                    lemma_merge_commutes(c, d);
                },
                _ => {},
            }
            assert(merge_slot_view(x.1, y.1) == merge_slot_view(y.1, x.1));
            assert(slot_conflicts(x.1, y.1) == slot_conflicts(y.1, x.1));
            assert(merge_entries_view(t, s) == merge_entries_view(t_front, s_front).push(
                (x.0, merge_slot_view(x.1, y.1)),
            ));
            assert(merge_entries_view(s, t) == merge_entries_view(s_front, t_front).push(
                (y.0, merge_slot_view(y.1, x.1)),
            ));
        }
    } else {
        if t.len() == 0 && s.len() == 0 {
            assert(t =~= s);
        }
        assert(merge_entries_view(t, s) == merge_entries_view(s, t));
        assert(entries_conflicts(t, s) == 0);
        assert(entries_conflicts(s, t) == 0);
    }
}

/// A selection of everything takes in any selection it is merged with.
pub proof fn lemma_merge_absorbs(filter: Option<FilterView>)
    ensures
        merge_slot_view(filter, None) is None,
        merge_slot_view(None, filter) is None,
        slot_conflicts(filter, None) == 0,
        slot_conflicts(None, filter) == 0,
{
}

/// Every name of a merged list of entries is a name of one of the two lists.
proof fn lemma_merge_entries_names(t: Entries, s: Entries)
    ensures
        forall|i: int|
            0 <= i < merge_entries_view(t, s).len() ==> (exists|j: int|
                0 <= j < t.len() && t[j].0 == (#[trigger] merge_entries_view(t, s)[i]).0) || (
            exists|j: int| 0 <= j < s.len() && s[j].0 == merge_entries_view(t, s)[i].0),
    decreases t, s,
{
    let r = merge_entries_view(t, s);
    if t.len() == 0 || s.len() == 0 {
        assert forall|i: int| 0 <= i < r.len() implies (exists|j: int|
            0 <= j < t.len() && t[j].0 == (#[trigger] r[i]).0) || (exists|j: int|
            0 <= j < s.len() && s[j].0 == r[i].0) by {
            if t.len() == 0 {
                assert(s[i].0 == r[i].0);
            } else {
                assert(t[i].0 == r[i].0);
            }
        }
    } else {
        let x = t[t.len() - 1];
        let y = s[s.len() - 1];
        let t_front = t.subrange(0, t.len() - 1);
        let s_front = s.subrange(0, s.len() - 1);
        let (tt, ss) = if precedes(y.0, x.0) {
            (t_front, s)
        } else if precedes(x.0, y.0) {
            (t, s_front)
        } else {
            (t_front, s_front)
        };
        lemma_merge_entries_names(tt, ss);
        let inner = merge_entries_view(tt, ss);
        assert forall|i: int| 0 <= i < r.len() implies (exists|j: int|
            0 <= j < t.len() && t[j].0 == (#[trigger] r[i]).0) || (exists|j: int|
            0 <= j < s.len() && s[j].0 == r[i].0) by {
            if i < inner.len() {
                assert(r[i] == inner[i]);
                if exists|j: int| 0 <= j < tt.len() && tt[j].0 == inner[i].0 {
                    let j = choose|j: int| 0 <= j < tt.len() && tt[j].0 == inner[i].0;
                    assert(t[j].0 == r[i].0);
                } else {
                    let j = choose|j: int| 0 <= j < ss.len() && ss[j].0 == inner[i].0;
                    assert(s[j].0 == r[i].0);
                }
            } else {
                if precedes(y.0, x.0) {
                    assert(t[t.len() - 1].0 == r[i].0);
                } else if precedes(x.0, y.0) {
                    assert(s[s.len() - 1].0 == r[i].0);
                } else {
                    assert(t[t.len() - 1].0 == r[i].0);
                }
            }
        }
    }
}

/// The merge of two filters whose names are in order has its names in order.
pub proof fn lemma_merge_canonical(a: FilterView, b: FilterView)
    requires
        canonical(a),
        canonical(b),
    ensures
        canonical(merge_view(a, b)),
    decreases a, b,
{
    match (a, b) {
        (FilterView::Struct(t), FilterView::Struct(s)) => {
            lemma_merge_entries_canonical(t, s);
        },
        (FilterView::Array(Some(x)), FilterView::Array(Some(y))) => {
            lemma_merge_canonical(*x, *y);
        },
        _ => {},
    }
}

/// The merge of two lists of entries whose names are in order has its names
/// in order.
pub proof fn lemma_merge_entries_ascending(t: Entries, s: Entries)
    requires
        ascending(t),
        ascending(s),
    ensures
        ascending(merge_entries_view(t, s)),
    decreases t.len() + s.len(),
{
    let r = merge_entries_view(t, s);
    if t.len() > 0 && s.len() > 0 {
        let x = t[t.len() - 1];
        let y = s[s.len() - 1];
        let t_front = t.subrange(0, t.len() - 1);
        let s_front = s.subrange(0, s.len() - 1);
        assert(ascending(t_front)) by {
            assert forall|i: int, j: int| 0 <= i < j < t_front.len() implies precedes(
                t_front[i].0,
                t_front[j].0,
            ) by {
                assert(precedes(t[i].0, t[j].0));
            }
        }
        assert(ascending(s_front)) by {
            assert forall|i: int, j: int| 0 <= i < j < s_front.len() implies precedes(
                s_front[i].0,
                s_front[j].0,
            ) by {
                assert(precedes(s[i].0, s[j].0));
            }
        }
        lemma_precedes_total(x.0, y.0);
        let (tt, ss, last) = if precedes(y.0, x.0) {
            (t_front, s, x)
        } else if precedes(x.0, y.0) {
            (t, s_front, y)
        } else {
            (t_front, s_front, (x.0, merge_slot_view(x.1, y.1)))
        };
        lemma_merge_entries_ascending(tt, ss);
        lemma_merge_entries_names(tt, ss);
        let inner = merge_entries_view(tt, ss);
        assert(r == inner.push(last));
        assert forall|i: int| 0 <= i < inner.len() implies precedes(
            (#[trigger] inner[i]).0,
            last.0,
        ) by {
            if exists|j: int| 0 <= j < tt.len() && tt[j].0 == inner[i].0 {
                let j = choose|j: int| 0 <= j < tt.len() && tt[j].0 == inner[i].0;
                if j < t.len() - 1 {
                    assert(precedes(t[j].0, x.0));
                    if last.0 != x.0 {
                        lemma_precedes_transitive(t[j].0, x.0, y.0);
                    }
                }
            } else {
                let j = choose|j: int| 0 <= j < ss.len() && ss[j].0 == inner[i].0;
                if j < s.len() - 1 {
                    assert(precedes(s[j].0, y.0));
                    if last.0 != y.0 {
                        lemma_precedes_transitive(s[j].0, y.0, x.0);
                    }
                }
            }
        }
        assert forall|i: int, j: int| 0 <= i < j < r.len() implies precedes(r[i].0, r[j].0) by {
            if j < inner.len() {
                assert(precedes(inner[i].0, inner[j].0));
            } else {
                assert(precedes(inner[i].0, last.0));
            }
        }
    }
}

/// Where names are in order no name occurs twice.
pub proof fn lemma_ascending_distinct(entries: Entries)
    requires
        ascending(entries),
    ensures
        distinct(keys_of(entries)),
{
    assert forall|i: int, j: int| 0 <= i < j < entries.len() implies keys_of(entries)[i] != keys_of(
        entries,
    )[j] by {
        assert(precedes(entries[i].0, entries[j].0));
        lemma_precedes_asymmetric(entries[i].0, entries[j].0);
    }
}

/// What a list of entries holds for a name that comes behind all of its
/// names: nothing.
pub proof fn lemma_lookup_beyond(entries: Entries, name: Seq<char>)
    requires
        forall|i: int| 0 <= i < entries.len() ==> precedes((#[trigger] entries[i]).0, name),
    ensures
        lookup(entries, name) is None,
{
    assert forall|i: int| 0 <= i < entries.len() implies keys_of(entries)[i] != name by {
        assert(precedes(entries[i].0, name));
        lemma_precedes_asymmetric(entries[i].0, name);
    }
    lemma_position_none(keys_of(entries), name);
}

/// What a list of entries with one more entry at its end holds for a name.
pub proof fn lemma_lookup_push(
    entries: Entries,
    last: (Seq<char>, Option<FilterView>),
    name: Seq<char>,
)
    ensures
        lookup(entries.push(last), name) == match lookup(entries, name) {
            Some(found) => Some(found),
            None => if last.0 == name {
                Some(last.1)
            } else {
                None
            },
        },
{
    assert(keys_of(entries.push(last)) =~= keys_of(entries).push(last.0));
    lemma_position_push(keys_of(entries), last.0, name);
    lemma_position(keys_of(entries), name);
}

/// A merged list of entries as a map: it holds every field of either list;
/// a field of one list with what that list selects below it, and a field of
/// both with the two selections merged.
pub proof fn lemma_merge_entries_lookup(t: Entries, s: Entries, name: Seq<char>)
    requires
        ascending(t),
        ascending(s),
    ensures
        lookup(merge_entries_view(t, s), name) == match (lookup(t, name), lookup(s, name)) {
            (Some(a), Some(b)) => Some(merge_slot_view(a, b)),
            (Some(a), None) => Some(a),
            (None, Some(b)) => Some(b),
            (None, None) => None,
        },
    decreases t.len() + s.len(),
{
    if t.len() > 0 && s.len() > 0 {
        let x = t[t.len() - 1];
        let y = s[s.len() - 1];
        let t_front = t.subrange(0, t.len() - 1);
        let s_front = s.subrange(0, s.len() - 1);
        assert(t =~= t_front.push(x));
        assert(s =~= s_front.push(y));
        assert(ascending(t_front)) by {
            assert forall|i: int, j: int| 0 <= i < j < t_front.len() implies precedes(
                t_front[i].0,
                t_front[j].0,
            ) by {
                assert(precedes(t[i].0, t[j].0));
            }
        }
        assert(ascending(s_front)) by {
            assert forall|i: int, j: int| 0 <= i < j < s_front.len() implies precedes(
                s_front[i].0,
                s_front[j].0,
            ) by {
                assert(precedes(s[i].0, s[j].0));
            }
        }
        assert forall|i: int| 0 <= i < t_front.len() implies precedes(
            (#[trigger] t_front[i]).0,
            x.0,
        ) by {
            assert(precedes(t[i].0, t[t.len() - 1].0));
        }
        assert forall|i: int| 0 <= i < s_front.len() implies precedes(
            (#[trigger] s_front[i]).0,
            y.0,
        ) by {
            assert(precedes(s[i].0, s[s.len() - 1].0));
        }
        lemma_lookup_beyond(t_front, x.0);
        lemma_lookup_beyond(s_front, y.0);
        lemma_lookup_push(t_front, x, name);
        lemma_lookup_push(s_front, y, name);
        lemma_precedes_total(x.0, y.0);
        lemma_precedes_asymmetric(x.0, y.0);
        lemma_precedes_asymmetric(y.0, x.0);
        if precedes(y.0, x.0) {
            // The last name of the target comes behind every name of the source.
            lemma_merge_entries_lookup(t_front, s, name);
            lemma_lookup_push(merge_entries_view(t_front, s), x, name);
            assert forall|i: int| 0 <= i < s.len() implies precedes((#[trigger] s[i]).0, x.0) by {
                if i < s.len() - 1 {
                    assert(precedes(s[i].0, s[s.len() - 1].0));
                    lemma_precedes_transitive(s[i].0, y.0, x.0);
                }
            }
            lemma_lookup_beyond(s, x.0);
        } else if precedes(x.0, y.0) {
            lemma_merge_entries_lookup(t, s_front, name);
            lemma_lookup_push(merge_entries_view(t, s_front), y, name);
            assert forall|i: int| 0 <= i < t.len() implies precedes((#[trigger] t[i]).0, y.0) by {
                if i < t.len() - 1 {
                    assert(precedes(t[i].0, t[t.len() - 1].0));
                    lemma_precedes_transitive(t[i].0, x.0, y.0);
                }
            }
            lemma_lookup_beyond(t, y.0);
        } else {
            lemma_merge_entries_lookup(t_front, s_front, name);
            lemma_lookup_push(
                merge_entries_view(t_front, s_front),
                (x.0, merge_slot_view(x.1, y.1)),
                name,
            );
        }
    } else if t.len() == 0 {
        lemma_position_none(keys_of(t), name);
    } else {
        lemma_position_none(keys_of(s), name);
    }
}

/// The merge of two lists of entries that are in order at every depth is in
/// order at every depth.
pub proof fn lemma_merge_entries_canonical(t: Entries, s: Entries)
    requires
        canonical(FilterView::Struct(t)),
        canonical(FilterView::Struct(s)),
    ensures
        canonical(FilterView::Struct(merge_entries_view(t, s))),
    decreases t, s,
{
    let r = merge_entries_view(t, s);
    lemma_merge_entries_ascending(t, s);
    if t.len() > 0 && s.len() > 0 {
        let x = t[t.len() - 1];
        let y = s[s.len() - 1];
        let t_front = t.subrange(0, t.len() - 1);
        let s_front = s.subrange(0, s.len() - 1);
        assert(canonical(FilterView::Struct(t_front))) by {
            assert forall|i: int| 0 <= i < t_front.len() && (#[trigger] t_front[i]).1
                is Some implies canonical(t_front[i].1->Some_0) by {
                assert(t_front[i] == t[i]);
            }
            assert forall|i: int, j: int| 0 <= i < j < t_front.len() implies precedes(
                t_front[i].0,
                t_front[j].0,
            ) by {
                assert(precedes(t[i].0, t[j].0));
            }
        }
        assert(canonical(FilterView::Struct(s_front))) by {
            assert forall|i: int| 0 <= i < s_front.len() && (#[trigger] s_front[i]).1
                is Some implies canonical(s_front[i].1->Some_0) by {
                assert(s_front[i] == s[i]);
            }
            assert forall|i: int, j: int| 0 <= i < j < s_front.len() implies precedes(
                s_front[i].0,
                s_front[j].0,
            ) by {
                assert(precedes(s[i].0, s[j].0));
            }
        }
        let (tt, ss, last) = if precedes(y.0, x.0) {
            (t_front, s, x)
        } else if precedes(x.0, y.0) {
            (t, s_front, y)
        } else {
            (t_front, s_front, (x.0, merge_slot_view(x.1, y.1)))
        };
        lemma_merge_entries_canonical(tt, ss);
        let inner = merge_entries_view(tt, ss);
        assert(r == inner.push(last));
        assert forall|i: int| 0 <= i < r.len() && (#[trigger] r[i]).1 is Some implies canonical(
            r[i].1->Some_0,
        ) by {
            if i < inner.len() {
                assert(r[i] == inner[i]);
            } else {
                assert(t[t.len() - 1] == x);
                assert(s[s.len() - 1] == y);
                match (x.1, y.1) {
                    (Some(c), Some(d)) => {
                        if !precedes(y.0, x.0) && !precedes(x.0, y.0) {
                            lemma_merge_canonical(c, d);
                        }
                    },
                    _ => {},
                }
            }
        }
    }
}

/// The warnings for a number of struct filters that met array filters.
pub open spec fn conflict_warnings(count: nat) -> Seq<Seq<char>> {
    Seq::new(count, |i: int| "mismatched filters: array filter dropped in favour of struct filter"@)
}

/// What is selected below an array is in order at every depth.
pub open spec fn in_order_below(child: Option<Box<FilterView>>) -> bool {
    child matches Some(inner) ==> canonical(*inner)
}

/// What two array selections merge to.
pub open spec fn merge_array_view(target: Option<Box<FilterView>>, source: Option<Box<FilterView>>)
    -> Option<Box<FilterView>> {
    match (target, source) {
        (Some(a), Some(b)) => Some(Box::new(merge_view(*a, *b))),
        _ => None,
    }
}

/// How many times a struct filter met an array filter while two array
/// selections were merged.
pub open spec fn array_conflicts(target: Option<Box<FilterView>>, source: Option<Box<FilterView>>)
    -> nat {
    match (target, source) {
        (Some(a), Some(b)) => conflicts(*a, *b),
        _ => 0,
    }
}

/// Records that a struct filter met an array filter.
fn warn_conflict(warnings: &mut Vec<String>)
    ensures
        texts(final(warnings)@) == texts(old(warnings)@) + conflict_warnings(1),
{
    let text = String::from_str(
        "mismatched filters: array filter dropped in favour of struct filter",
    );
    proof {
        assert(texts(warnings@.push(text)) =~= texts(warnings@) + conflict_warnings(1));
    }
    warnings.push(text);
}

impl ColumnFilter {
    /// Merges another filter into this one.
    ///
    /// Two struct filters merge field by field, two array filters by their
    /// element filters. A struct filter and an array filter do not merge:
    /// the struct filter is kept, the array filter is dropped, and a warning
    /// is added to `warnings`.
    pub fn merge(self, source: Self, warnings: &mut Vec<String>) -> (r: Self)
        ensures
            r@ == merge_view(self@, source@),
            texts(final(warnings)@) == texts(old(warnings)@) + conflict_warnings(
                conflicts(self@, source@),
            ),
            canonical(self@) && canonical(source@) ==> canonical(r@),
            r matches ColumnFilter::Struct(fields) ==> ascending(fields.view()),
        decreases self@, source@, 0int,
    {
        proof {
            if canonical(self@) && canonical(source@) {
                lemma_merge_canonical(self@, source@);
            }
        }
        match (self, source) {
            (ColumnFilter::Struct(target_struct), ColumnFilter::Struct(source_struct)) => {
                ColumnFilter::Struct(merge_struct(target_struct, source_struct, warnings))
            },
            (ColumnFilter::Array(target_array), ColumnFilter::Array(source_array)) => {
                ColumnFilter::Array(merge_array(target_array, source_array, warnings))
            },
            (ColumnFilter::Struct(kept), ColumnFilter::Array(_)) => {
                proof {
                    use_type_invariant(&kept);
                }
                warn_conflict(warnings);
                ColumnFilter::Struct(kept)
            },
            (ColumnFilter::Array(_), ColumnFilter::Struct(kept)) => {
                proof {
                    use_type_invariant(&kept);
                }
                warn_conflict(warnings);
                ColumnFilter::Struct(kept)
            },
        }
    }
}

/// Merges the fields of one struct filter into another: every field of
/// either, and a field of both with its two selections merged. A field that
/// either side selects whole is selected whole.
pub fn merge_struct(target: StructFilter, source: StructFilter, warnings: &mut Vec<String>) -> (r:
    StructFilter)
    ensures
        r.view() == merge_entries_view(target.view(), source.view()),
        texts(final(warnings)@) == texts(old(warnings)@) + conflict_warnings(
            entries_conflicts(target.view(), source.view()),
        ),
        ascending(r.view()),
        canonical(FilterView::Struct(target.view())) && canonical(
            FilterView::Struct(source.view()),
        ) ==> canonical(FilterView::Struct(r.view())),
    decreases target.view(), source.view(), 1int,
{
    proof {
        use_type_invariant(&target);
        use_type_invariant(&source);
        lemma_merge_entries_ascending(target.view(), source.view());
        if canonical(FilterView::Struct(target.view())) && canonical(
            FilterView::Struct(source.view()),
        ) {
            lemma_merge_entries_canonical(target.view(), source.view());
        }
    }
    let StructFilter { entries: target_entries } = target;
    let StructFilter { entries: source_entries } = source;
    StructFilter { entries: merge_entries(target_entries, source_entries, warnings) }
}

/// Merges two lists of entries, from the last names to the first.
fn merge_entries(
    target: Vec<(String, Option<ColumnFilter>)>,
    source: Vec<(String, Option<ColumnFilter>)>,
    warnings: &mut Vec<String>,
) -> (r: Vec<(String, Option<ColumnFilter>)>)
    ensures
        entries_view(r@) == merge_entries_view(entries_view(target@), entries_view(source@)),
        texts(final(warnings)@) == texts(old(warnings)@) + conflict_warnings(
            entries_conflicts(entries_view(target@), entries_view(source@)),
        ),
    decreases entries_view(target@), entries_view(source@), 0int,
{
    let ghost t = entries_view(target@);
    let ghost s = entries_view(source@);
    if target.len() == 0 {
        assert(texts(warnings@) + conflict_warnings(0) =~= texts(warnings@));
        return source;
    }
    if source.len() == 0 {
        assert(texts(warnings@) + conflict_warnings(0) =~= texts(warnings@));
        return target;
    }
    let mut target = target;
    let mut source = source;
    let which = order(&source[source.len() - 1].0, &target[target.len() - 1].0);
    proof {
        lemma_precedes_asymmetric(s[s.len() - 1].0, t[t.len() - 1].0);
        lemma_precedes_asymmetric(t[t.len() - 1].0, s[s.len() - 1].0);
    }
    match which {
        Order::Before => {
            let x = target.pop().unwrap();
            proof {
                assert(entries_view(target@) =~= t.subrange(0, t.len() - 1));
            }
            let mut r = merge_entries(target, source, warnings);
            let ghost inner = entries_view(r@);
            r.push(x);
            proof {
                assert(entries_view(r@) =~= inner.push(t[t.len() - 1]));
            }
            r
        },
        Order::After => {
            let y = source.pop().unwrap();
            proof {
                assert(entries_view(source@) =~= s.subrange(0, s.len() - 1));
            }
            let mut r = merge_entries(target, source, warnings);
            let ghost inner = entries_view(r@);
            r.push(y);
            proof {
                assert(entries_view(r@) =~= inner.push(s[s.len() - 1]));
            }
            r
        },
        Order::Same => {
            let (name, target_value) = target.pop().unwrap();
            let (_, source_value) = source.pop().unwrap();
            proof {
                assert(entries_view(target@) =~= t.subrange(0, t.len() - 1));
                assert(entries_view(source@) =~= s.subrange(0, s.len() - 1));
            }
            let mut r = merge_entries(target, source, warnings);
            let ghost inner = entries_view(r@);
            let ghost told = texts(warnings@);
            let merged = match (target_value, source_value) {
                (Some(target_filter), Some(source_filter)) => Some(
                    target_filter.merge(source_filter, warnings),
                ),
                _ => None,
            };
            proof {
                assert(slot_view(merged) == merge_slot_view(t[t.len() - 1].1, s[s.len() - 1].1));
                assert(texts(warnings@) =~= told + conflict_warnings(
                    slot_conflicts(t[t.len() - 1].1, s[s.len() - 1].1),
                ));
                assert(texts(warnings@) =~= texts(old(warnings)@) + conflict_warnings(
                    entries_conflicts(t, s),
                ));
            }
            r.push((name, merged));
            proof {
                assert(entries_view(r@) =~= inner.push(
                    (t[t.len() - 1].0, merge_slot_view(t[t.len() - 1].1, s[s.len() - 1].1)),
                ));
            }
            r
        },
    }
}

/// Merges what is selected below two arrays: all of each element where
/// either side selects all, and else the merge of the two element filters.
pub fn merge_array(target: ArrayFilter, source: ArrayFilter, warnings: &mut Vec<String>) -> (r:
    ArrayFilter)
    ensures
        array_view(r) == merge_array_view(array_view(target), array_view(source)),
        texts(final(warnings)@) == texts(old(warnings)@) + conflict_warnings(
            array_conflicts(array_view(target), array_view(source)),
        ),
        target is None || source is None ==> r is None,
        in_order_below(array_view(target)) && in_order_below(array_view(source))
            ==> in_order_below(array_view(r)),
    decreases array_view(target), array_view(source), 0int,
{
    match (target, source) {
        (Some(target_filter), Some(source_filter)) => {
            let merged = (*target_filter).merge(*source_filter, warnings);
            Some(Box::new(merged))
        },
        _ => {
            assert(texts(warnings@) + conflict_warnings(0) =~= texts(warnings@));
            None
        },
    }
}

/// A filter read from a text: the filter, where the reading stopped, and how
/// many times a struct filter met an array filter on the way.
pub struct Parsed {
    pub filter: FilterView,
    pub next: int,
    pub conflicts: nat,
}

/// An optional chained filter read from a text.
pub struct ParsedChild {
    pub child: Option<FilterView>,
    pub next: int,
    pub conflicts: nat,
}

/// The filter with one field and what is selected below it.
pub open spec fn single_view(name: Seq<char>, child: Option<FilterView>) -> FilterView {
    FilterView::Struct(seq![(name, child)])
}

/// `chained := ('.' filter)?`: a dot and a filter, or nothing. A dot that no
/// filter follows is not taken.
pub open spec fn chained_at(text: Seq<char>, at: int) -> ParsedChild
    decreases text.len() - at, 0int,
{
    if 0 <= at < text.len() && text[at] == '.' {
        match filter_at(text, at + 1) {
            Some(found) => ParsedChild {
                child: Some(found.filter),
                next: found.next,
                conflicts: found.conflicts,
            },
            None => ParsedChild { child: None, next: at, conflicts: 0 },
        }
    } else {
        ParsedChild { child: None, next: at, conflicts: 0 }
    }
}

/// `struct_entry := name chained`: a field, and what is selected below it.
pub open spec fn struct_entry_at(text: Seq<char>, at: int) -> Option<Parsed>
    decreases text.len() - at, 1int,
{
    let end = name_end(text, at);
    if 0 <= at < end <= text.len() {
        let below = chained_at(text, end);
        Some(
            Parsed {
                filter: single_view(text.subrange(at, end), below.child),
                next: below.next,
                conflicts: below.conflicts,
            },
        )
    } else {
        None
    }
}

/// `array_index := '[]' chained`: the elements of an array, and what is
/// selected of each.
pub open spec fn array_index_at(text: Seq<char>, at: int) -> Option<Parsed>
    decreases text.len() - at, 1int,
{
    if 0 <= at && at + 2 <= text.len() && text[at] == '[' && text[at + 1] == ']' {
        let below = chained_at(text, at + 2);
        Some(
            Parsed {
                filter: FilterView::Array(
                    match below.child {
                        Some(child) => Some(Box::new(child)),
                        None => None,
                    },
                ),
                next: below.next,
                conflicts: below.conflicts,
            },
        )
    } else {
        None
    }
}

/// `filter := struct_entry | array_index | '(' group ')'`, the first that
/// reads.
pub open spec fn filter_at(text: Seq<char>, at: int) -> Option<Parsed>
    decreases text.len() - at, 2int,
{
    if at < 0 || at > text.len() {
        None
    } else {
        match struct_entry_at(text, at) {
            Some(found) => Some(found),
            None => match array_index_at(text, at) {
                Some(found) => Some(found),
                None => if at < text.len() && text[at] == '(' {
                    match group_at(text, at + 1) {
                        Some(inner) => if 0 <= inner.next < text.len() && text[inner.next] == ')' {
                            Some(
                                Parsed {
                                    filter: inner.filter,
                                    next: inner.next + 1,
                                    conflicts: inner.conflicts,
                                },
                            )
                        } else {
                            None
                        },
                        None => None,
                    }
                } else {
                    None
                },
            },
        }
    }
}

/// The rest of a group, `(',' filter)*`, read at `at` with the filters read
/// so far merged into `so_far`. A comma that no filter follows is not taken.
pub open spec fn group_tail_at(text: Seq<char>, at: int, so_far: FilterView, conflicts: nat)
    -> Parsed
    decreases text.len() - at, 3int,
{
    if 0 <= at < text.len() && text[at] == ',' {
        match filter_at(text, at + 1) {
            Some(found) => if at < found.next <= text.len() {
                group_tail_at(
                    text,
                    found.next,
                    merge_view(so_far, found.filter),
                    conflicts + found.conflicts + self::conflicts(so_far, found.filter),
                )
            } else {
                Parsed { filter: so_far, next: at, conflicts }
            },
            None => Parsed { filter: so_far, next: at, conflicts },
        }
    } else {
        Parsed { filter: so_far, next: at, conflicts }
    }
}

/// `group := filter (',' filter)*`: one filter or more, merged from left to
/// right.
pub open spec fn group_at(text: Seq<char>, at: int) -> Option<Parsed>
    decreases text.len() - at, 4int,
{
    if at < 0 || at > text.len() {
        None
    } else {
        match filter_at(text, at) {
            Some(first) => if at < first.next <= text.len() {
                Some(group_tail_at(text, first.next, first.filter, first.conflicts))
            } else {
                Some(first)
            },
            None => None,
        }
    }
}

/// A filter read from a text, with the warnings of the merges made on the
/// way.
#[derive(Debug)]
pub struct Reading {
    pub filter: ColumnFilter,
    /// The number of characters read.
    pub next: usize,
    pub warnings: Vec<String>,
}

/// An optional chained filter read from a text.
struct ChildReading {
    child: Option<ColumnFilter>,
    next: usize,
    warnings: Vec<String>,
}

impl Reading {
    /// The reading is the one the grammar gives.
    pub open spec fn is(&self, parsed: Parsed) -> bool {
        &&& self.filter@ == parsed.filter
        &&& self.next == parsed.next
        &&& texts(self.warnings@) == conflict_warnings(parsed.conflicts)
    }
}

/// An optional reading is the one the grammar gives: past `at`, within the
/// text, and with its names in order.
pub open spec fn reads(
    reading: Option<Reading>,
    parsed: Option<Parsed>,
    at: usize,
    text: Seq<char>,
) -> bool {
    match (reading, parsed) {
        (Some(r), Some(p)) => r.is(p) && at < r.next <= text.len() && canonical(r.filter@),
        (None, None) => true,
        _ => false,
    }
}

impl StructFilter {
    /// A struct filter that selects one field.
    pub fn single(name: String, child: Option<ColumnFilter>) -> (r: StructFilter)
        ensures
            r.view() == seq![(name@, slot_view(child))],
            ascending(r.view()),
    {
        let mut entries: Vec<(String, Option<ColumnFilter>)> = Vec::new();
        entries.push((name, child));
        assert(entries_view(entries@) =~= seq![(name@, slot_view(child))]);
        StructFilter { entries }
    }

    /// The number of fields selected.
    pub fn len(&self) -> (n: usize)
        ensures
            n == self.view().len(),
    {
        self.entries.len()
    }

    /// The fields selected, in the order of their names, none twice.
    pub fn entries(&self) -> (r: &Vec<(String, Option<ColumnFilter>)>)
        ensures
            entries_view(r@) == self.view(),
            ascending(self.view()),
    {
        proof {
            use_type_invariant(self);
        }
        &self.entries
    }
}

/// Reads `chained := ('.' filter)?`.
fn chained_filter(text: &Vec<char>, at: usize) -> (r: ChildReading)
    requires
        at <= text.len(),
    ensures
        slot_view(r.child) == chained_at(text@, at as int).child,
        r.next == chained_at(text@, at as int).next,
        texts(r.warnings@) == conflict_warnings(chained_at(text@, at as int).conflicts),
        at <= r.next <= text.len(),
        r.child matches Some(child) ==> canonical(child@),
    decreases text.len() - at, 0int,
{
    if at < text.len() && text[at] == '.' {
        match filter(text, at + 1) {
            Some(found) => {
                let Reading { filter, next, warnings } = found;
                return ChildReading { child: Some(filter), next, warnings };
            },
            None => {},
        }
    }
    let warnings: Vec<String> = Vec::new();
    assert(texts(warnings@) =~= conflict_warnings(0));
    ChildReading { child: None, next: at, warnings }
}

/// Reads `struct_entry := name chained`.
fn struct_entry(text: &Vec<char>, at: usize) -> (r: Option<Reading>)
    requires
        at <= text.len(),
    ensures
        reads(r, struct_entry_at(text@, at as int), at, text@),
    decreases text.len() - at, 1int,
{
    let end = field_name(text, at);
    if end == at {
        return None;
    }
    let name = substring(text, at, end);
    let ChildReading { child, next, warnings } = chained_filter(text, end);
    let filter = ColumnFilter::Struct(StructFilter::single(name, child));
    Some(Reading { filter, next, warnings })
}

/// Reads `array_index := '[]' chained`.
fn array_index(text: &Vec<char>, at: usize) -> (r: Option<Reading>)
    requires
        at <= text.len(),
    ensures
        reads(r, array_index_at(text@, at as int), at, text@),
    decreases text.len() - at, 1int,
{
    if text.len() - at < 2 || text[at] != '[' || text[at + 1] != ']' {
        return None;
    }
    let ChildReading { child, next, warnings } = chained_filter(text, at + 2);
    let filter = ColumnFilter::Array(
        match child {
            Some(inner) => Some(Box::new(inner)),
            None => None,
        },
    );
    Some(Reading { filter, next, warnings })
}

/// Reads `filter := struct_entry | array_index | '(' group ')'`.
fn filter(text: &Vec<char>, at: usize) -> (r: Option<Reading>)
    requires
        at <= text.len(),
    ensures
        reads(r, filter_at(text@, at as int), at, text@),
    decreases text.len() - at, 2int,
{
    match struct_entry(text, at) {
        Some(found) => {
            return Some(found);
        },
        None => {},
    }
    match array_index(text, at) {
        Some(found) => {
            return Some(found);
        },
        None => {},
    }
    if at < text.len() && text[at] == '(' {
        match group_from(text, at + 1) {
            Some(inner) => {
                let Reading { filter, next, warnings } = inner;
                if next < text.len() && text[next] == ')' {
                    return Some(Reading { filter, next: next + 1, warnings });
                }
            },
            None => {},
        }
    }
    None
}

/// Reads `group := filter (',' filter)*` at a position of a text.
fn group_from(text: &Vec<char>, at: usize) -> (r: Option<Reading>)
    requires
        at <= text.len(),
    ensures
        reads(r, group_at(text@, at as int), at, text@),
    decreases text.len() - at, 4int,
{
    let first = match filter(text, at) {
        Some(first) => first,
        None => {
            return None;
        },
    };
    let Reading { filter: mut so_far, mut next, mut warnings } = first;
    let ghost mut counted: nat = filter_at(text@, at as int)->Some_0.conflicts;
    loop
        invariant_except_break
            group_at(text@, at as int) == Some(
                group_tail_at(text@, next as int, so_far@, counted),
            ),
        invariant
            at < next <= text.len(),
            canonical(so_far@),
            texts(warnings@) == conflict_warnings(counted),
        ensures
            group_at(text@, at as int) == Some(
                Parsed { filter: so_far@, next: next as int, conflicts: counted },
            ),
        decreases text.len() - next,
    {
        if !(next < text.len() && text[next] == ',') {
            break ;
        }
        let found = match filter(text, next + 1) {
            Some(found) => found,
            None => {
                break ;
            },
        };
        let Reading { filter: more, next: after, warnings: mut told } = found;
        let ghost before = texts(warnings@);
        let ghost inner = filter_at(text@, next + 1)->Some_0;
        warnings.append(&mut told);
        proof {
            assert(texts(warnings@) =~= before + conflict_warnings(inner.conflicts));
        }
        let ghost merged_from = so_far@;
        so_far = so_far.merge(more, &mut warnings);
        proof {
            counted = counted + inner.conflicts + conflicts(merged_from, inner.filter);
            assert(texts(warnings@) =~= conflict_warnings(counted));
        }
        next = after;
    }
    Some(Reading { filter: so_far, next, warnings })
}

/// Reads a group of filters from the front of a text.
///
/// Gives the merged filter, how many characters were read, and a warning for
/// every struct filter that met an array filter. Gives nothing where the
/// text does not start with a filter.
pub fn group(input: &str) -> (r: Option<Reading>)
    ensures
        reads(r, group_at(input@, 0), 0, input@),
{
    let text = chars_of(input);
    group_from(&text, 0)
}

impl ColumnFilter {
    /// Reads a filter from a text, all of it.
    ///
    /// The text is a group, `filter (',' filter)*`, with
    /// `filter := name chained | '[]' chained | '(' group ')'` and
    /// `chained := ('.' filter)?`. A text that does not start with a filter,
    /// or goes on behind the group, is invalid.
    pub fn parse(input: &str) -> (r: Result<Warnings<ColumnFilter>, Error>)
        ensures
            match group_at(input@, 0) {
                Some(parsed) => if parsed.next == input@.len() {
                    r matches Ok(w) && w.value()@ == parsed.filter && w.warnings()
                        == conflict_warnings(parsed.conflicts) && canonical(w.value()@)
                } else {
                    r matches Err(Error::Invalid(detail)) && detail@
                        == "filter parse error: unexpected characters after the filter"@
                },
                None => r matches Err(Error::Invalid(detail)) && detail@
                    == "filter parse error: expected a field name, `[]` or `(`"@,
            },
    {
        let text = chars_of(input);
        match group_from(&text, 0) {
            None => Err(
                Error::Invalid(
                    String::from_str("filter parse error: expected a field name, `[]` or `(`"),
                ),
            ),
            Some(reading) => {
                let Reading { filter, next, warnings } = reading;
                if next != text.len() {
                    Err(
                        Error::Invalid(
                            String::from_str(
                                "filter parse error: unexpected characters after the filter",
                            ),
                        ),
                    )
                } else {
                    let w = Warnings::new(filter).with_warnings(warnings);
                    assert(w.warnings() =~= conflict_warnings(group_at(input@, 0)->Some_0.conflicts));
                    Ok(w)
                }
            },
        }
    }
}

/// The entries with a field set: in the place of the field of that name,
/// or else where the order of the names puts it.
pub open spec fn put_view(entries: Entries, name: Seq<char>, child: Option<FilterView>) -> Entries
    decreases entries.len(),
{
    if entries.len() == 0 {
        seq![(name, child)]
    } else {
        let last = entries[entries.len() - 1];
        let front = entries.subrange(0, entries.len() - 1);
        if precedes(last.0, name) {
            entries.push((name, child))
        } else if precedes(name, last.0) {
            put_view(front, name, child).push(last)
        } else {
            front.push((name, child))
        }
    }
}

/// The entries with each of a list of fields set, one after the other.
pub open spec fn put_all_view(entries: Entries, fields: Entries) -> Entries
    decreases fields.len(),
{
    if fields.len() == 0 {
        entries
    } else {
        let last = fields[fields.len() - 1];
        put_view(put_all_view(entries, fields.subrange(0, fields.len() - 1)), last.0, last.1)
    }
}

/// Setting a field keeps the names in order, and brings in no name but that
/// of the field.
pub proof fn lemma_put_ascending(entries: Entries, name: Seq<char>, child: Option<FilterView>)
    requires
        ascending(entries),
    ensures
        ascending(put_view(entries, name, child)),
        forall|i: int|
            0 <= i < put_view(entries, name, child).len() ==> (#[trigger] put_view(
                entries,
                name,
                child,
            )[i]).0 == name || exists|j: int|
                0 <= j < entries.len() && entries[j].0 == put_view(entries, name, child)[i].0,
    decreases entries.len(),
{
    let r = put_view(entries, name, child);
    if entries.len() > 0 {
        let last = entries[entries.len() - 1];
        let front = entries.subrange(0, entries.len() - 1);
        assert(ascending(front)) by {
            assert forall|i: int, j: int| 0 <= i < j < front.len() implies precedes(
                front[i].0,
                front[j].0,
            ) by {
                assert(precedes(entries[i].0, entries[j].0));
            }
        }
        lemma_precedes_total(last.0, name);
        if precedes(last.0, name) {
            assert forall|i: int, j: int| 0 <= i < j < r.len() implies precedes(r[i].0, r[j].0) by {
                if j == entries.len() && i < entries.len() - 1 {
                    lemma_precedes_transitive(entries[i].0, last.0, name);
                }
            }
            assert forall|i: int| 0 <= i < r.len() implies (#[trigger] r[i]).0 == name || exists|
                j: int,
            |
                0 <= j < entries.len() && entries[j].0 == r[i].0 by {
                if i < entries.len() {
                    assert(entries[i].0 == r[i].0);
                }
            }
        } else if precedes(name, last.0) {
            lemma_put_ascending(front, name, child);
            let inner = put_view(front, name, child);
            assert forall|i: int, j: int| 0 <= i < j < r.len() implies precedes(r[i].0, r[j].0) by {
                if j == inner.len() {
                    if inner[i].0 != name {
                        let k = choose|k: int| 0 <= k < front.len() && front[k].0 == inner[i].0;
                        assert(precedes(entries[k].0, entries[entries.len() - 1].0));
                    }
                } else {
                    assert(precedes(inner[i].0, inner[j].0));
                }
            }
            assert forall|i: int| 0 <= i < r.len() implies (#[trigger] r[i]).0 == name || exists|
                j: int,
            |
                0 <= j < entries.len() && entries[j].0 == r[i].0 by {
                if i < inner.len() {
                    assert(r[i] == inner[i]);
                    if inner[i].0 != name {
                        let k = choose|k: int| 0 <= k < front.len() && front[k].0 == inner[i].0;
                        assert(entries[k].0 == r[i].0);
                    }
                } else {
                    assert(entries[entries.len() - 1].0 == r[i].0);
                }
            }
        } else {
            assert forall|i: int, j: int| 0 <= i < j < r.len() implies precedes(r[i].0, r[j].0) by {
                assert(precedes(entries[i].0, entries[j].0));
            }
            assert forall|i: int| 0 <= i < r.len() implies (#[trigger] r[i]).0 == name || exists|
                j: int,
            |
                0 <= j < entries.len() && entries[j].0 == r[i].0 by {
                if i < front.len() {
                    assert(entries[i].0 == r[i].0);
                }
            }
        }
    }
}

/// Setting a field to a selection that is in order at every depth keeps the
/// entries in order at every depth.
pub proof fn lemma_put(entries: Entries, name: Seq<char>, child: Option<FilterView>)
    requires
        canonical(FilterView::Struct(entries)),
        child matches Some(filter) ==> canonical(filter),
    ensures
        canonical(FilterView::Struct(put_view(entries, name, child))),
    decreases entries.len(),
{
    let r = put_view(entries, name, child);
    lemma_put_ascending(entries, name, child);
    if entries.len() > 0 {
        let last = entries[entries.len() - 1];
        let front = entries.subrange(0, entries.len() - 1);
        if !precedes(last.0, name) && precedes(name, last.0) {
            assert(canonical(FilterView::Struct(front))) by {
                assert forall|i: int| 0 <= i < front.len() && (#[trigger] front[i]).1
                    is Some implies canonical(front[i].1->Some_0) by {
                    assert(front[i] == entries[i]);
                }
                assert forall|i: int, j: int| 0 <= i < j < front.len() implies precedes(
                    front[i].0,
                    front[j].0,
                ) by {
                    assert(precedes(entries[i].0, entries[j].0));
                }
            }
            lemma_put(front, name, child);
            let inner = put_view(front, name, child);
            assert forall|i: int| 0 <= i < r.len() && (#[trigger] r[i]).1 is Some implies canonical(
                r[i].1->Some_0,
            ) by {
                if i < inner.len() {
                    assert(r[i] == inner[i]);
                } else {
                    assert(r[i] == entries[entries.len() - 1]);
                }
            }
        } else {
            assert forall|i: int| 0 <= i < r.len() && (#[trigger] r[i]).1 is Some implies canonical(
                r[i].1->Some_0,
            ) by {
                if i < front.len() {
                    assert(r[i] == entries[i]);
                }
            }
        }
    }
}

/// Sets a field in a list of entries.
fn put_entry(
    entries: Vec<(String, Option<ColumnFilter>)>,
    name: String,
    child: Option<ColumnFilter>,
) -> (r: Vec<(String, Option<ColumnFilter>)>)
    ensures
        entries_view(r@) == put_view(entries_view(entries@), name@, slot_view(child)),
    decreases entries@.len(),
{
    let ghost all = entries_view(entries@);
    let mut entries = entries;
    if entries.len() == 0 {
        entries.push((name, child));
        assert(entries_view(entries@) =~= seq![(name@, slot_view(child))]);
        return entries;
    }
    let which = order(&entries[entries.len() - 1].0, &name);
    proof {
        lemma_precedes_asymmetric(all[all.len() - 1].0, name@);
        lemma_precedes_asymmetric(name@, all[all.len() - 1].0);
    }
    match which {
        Order::Before => {
            entries.push((name, child));
            assert(entries_view(entries@) =~= all.push((name@, slot_view(child))));
            entries
        },
        Order::After => {
            let last = entries.pop().unwrap();
            assert(entries_view(entries@) =~= all.subrange(0, all.len() - 1));
            let mut r = put_entry(entries, name, child);
            let ghost inner = entries_view(r@);
            r.push(last);
            assert(entries_view(r@) =~= inner.push(all[all.len() - 1]));
            r
        },
        Order::Same => {
            let _ = entries.pop();
            let ghost front = entries_view(entries@);
            assert(front =~= all.subrange(0, all.len() - 1));
            entries.push((name, child));
            assert(entries_view(entries@) =~= front.push((name@, slot_view(child))));
            entries
        },
    }
}

impl StructFilter {
    /// A struct filter that selects no field.
    pub fn new() -> (r: StructFilter)
        ensures
            r.view().len() == 0,
            ascending(r.view()),
    {
        let entries: Vec<(String, Option<ColumnFilter>)> = Vec::new();
        assert(entries_view(entries@) =~= Seq::empty());
        StructFilter { entries }
    }

    /// The filter with a field set to a selection. A field that was selected
    /// before has its selection replaced.
    pub fn with(self, name: String, child: Option<ColumnFilter>) -> (r: StructFilter)
        ensures
            r.view() == put_view(self.view(), name@, slot_view(child)),
            ascending(r.view()),
            canonical(FilterView::Struct(self.view())) && (child is Some ==> canonical(
                child->Some_0@,
            )) ==> canonical(FilterView::Struct(r.view())),
    {
        proof {
            use_type_invariant(&self);
            lemma_put_ascending(self.view(), name@, slot_view(child));
            if canonical(FilterView::Struct(self.view())) && (child is Some ==> canonical(
                child->Some_0@,
            )) {
                lemma_put(self.view(), name@, slot_view(child));
            }
        }
        let StructFilter { entries } = self;
        StructFilter { entries: put_entry(entries, name, child) }
    }

    /// The struct filter of the given fields. Of two selections for one
    /// field the later counts.
    pub fn from_entries(fields: Vec<(String, Option<ColumnFilter>)>) -> (r: StructFilter)
        ensures
            r.view() == put_all_view(Seq::empty(), entries_view(fields@)),
            ascending(r.view()),
            (forall|i: int|
                0 <= i < fields@.len() && (#[trigger] fields@[i]).1 is Some ==> canonical(
                    fields@[i].1->Some_0@,
                )) ==> canonical(FilterView::Struct(r.view())),
    {
        let ghost all = fields@;
        let ghost views = entries_view(all);
        let mut entries: Vec<(String, Option<ColumnFilter>)> = Vec::new();
        proof {
            assert(entries_view(entries@) =~= Seq::empty());
            assert(views.subrange(0, 0) =~= Seq::empty());
        }
        for field in it: fields
            invariant
                it.seq() == all,
                views == entries_view(all),
                entries_view(entries@) == put_all_view(
                    Seq::empty(),
                    views.subrange(0, it.index() as int),
                ),
                ascending(entries_view(entries@)),
                (forall|i: int|
                    0 <= i < all.len() && (#[trigger] all[i]).1 is Some ==> canonical(
                        all[i].1->Some_0@,
                    )) ==> canonical(FilterView::Struct(entries_view(entries@))),
        {
            let ghost done = it.index() as int;
            let ghost before = entries_view(entries@);
            let (name, child) = field;
            proof {
                let upto = views.subrange(0, done + 1);
                assert(upto.subrange(0, upto.len() - 1) =~= views.subrange(0, done));
                assert(upto[upto.len() - 1] == (name@, slot_view(child)));
                lemma_put_ascending(before, name@, slot_view(child));
                if forall|i: int|
                    0 <= i < all.len() && (#[trigger] all[i]).1 is Some ==> canonical(
                        all[i].1->Some_0@,
                    ) {
                    assert(all[done].1 == child);
                    lemma_put(before, name@, slot_view(child));
                }
            }
            entries = put_entry(entries, name, child);
        }
        proof {
            assert(views.subrange(0, views.len() as int) =~= views);
        }
        StructFilter { entries }
    }
}

} // verus!
