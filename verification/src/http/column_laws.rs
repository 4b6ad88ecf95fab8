//! Laws of the column grammar: what reading a text means for its parts.

use vstd::prelude::*;

use crate::http::column_filter::{
    array_index_at, ascending, canonical, chained_at, conflicts, filter_at, group_at,
    group_tail_at, lemma_ascending_distinct, lemma_lookup_beyond, lemma_lookup_push,
    lemma_merge_canonical, lemma_merge_commutes, lemma_merge_entries_ascending,
    lemma_merge_entries_lookup, merge_entries_view, merge_view, single_view, struct_entry_at,
    Entries, FilterView, Parsed, ParsedChild,
};
use crate::utility::assoc::{keys_of, lemma_position, lemma_position_distinct, lookup, position};
use crate::utility::text::{is_name_char, lemma_precedes_asymmetric, name_end, precedes};

verus! {

/// A run of name characters ends within the text.
pub proof fn lemma_name_end_within(text: Seq<char>, at: int)
    requires
        0 <= at <= text.len(),
    ensures
        at <= name_end(text, at) <= text.len(),
    decreases text.len() - at,
{
    if at < text.len() && is_name_char(text[at]) {
        lemma_name_end_within(text, at + 1);
    }
}

/// What is read is in order at every depth.
pub open spec fn read_well(parsed: Option<Parsed>, at: int, text: Seq<char>) -> bool {
    parsed matches Some(found) ==> at < found.next <= text.len() && canonical(found.filter)
}

/// A chained filter ends within the text, and is in order at every depth.
pub proof fn lemma_chained_well(text: Seq<char>, at: int)
    requires
        0 <= at <= text.len(),
    ensures
        at <= chained_at(text, at).next <= text.len(),
        chained_at(text, at).child matches Some(child) ==> canonical(child),
    decreases text.len() - at, 0int,
{
    if at < text.len() && text[at] == '.' {
        lemma_filter_well(text, at + 1);
    }
}

/// A struct entry ends within the text, and is in order at every depth.
pub proof fn lemma_struct_entry_well(text: Seq<char>, at: int)
    requires
        0 <= at <= text.len(),
    ensures
        read_well(struct_entry_at(text, at), at, text),
    decreases text.len() - at, 1int,
{
    lemma_name_end_within(text, at);
    let end = name_end(text, at);
    if at < end {
        lemma_chained_well(text, end);
        let below = chained_at(text, end);
        let entries = seq![(text.subrange(at, end), below.child)];
        assert(ascending(entries));
        assert(canonical(single_view(text.subrange(at, end), below.child))) by {
            assert forall|i: int| 0 <= i < entries.len() && (#[trigger] entries[i]).1
                is Some implies canonical(entries[i].1->Some_0) by {}
        }
    }
}

/// An array selection ends within the text, and is in order at every depth.
pub proof fn lemma_array_index_well(text: Seq<char>, at: int)
    requires
        0 <= at <= text.len(),
    ensures
        read_well(array_index_at(text, at), at, text),
    decreases text.len() - at, 1int,
{
    if at + 2 <= text.len() && text[at] == '[' && text[at + 1] == ']' {
        lemma_chained_well(text, at + 2);
    }
}

/// A filter ends within the text, and is in order at every depth.
pub proof fn lemma_filter_well(text: Seq<char>, at: int)
    requires
        0 <= at <= text.len(),
    ensures
        read_well(filter_at(text, at), at, text),
    decreases text.len() - at, 2int,
{
    lemma_struct_entry_well(text, at);
    lemma_array_index_well(text, at);
    if struct_entry_at(text, at) is None && array_index_at(text, at) is None && at < text.len()
        && text[at] == '(' {
        lemma_group_well(text, at + 1);
    }
}

/// The rest of a group ends within the text, and is in order at every depth
/// if what was read before it is.
pub proof fn lemma_group_tail_well(text: Seq<char>, at: int, so_far: FilterView, conflicts: nat)
    requires
        0 <= at <= text.len(),
        canonical(so_far),
    ensures
        at <= group_tail_at(text, at, so_far, conflicts).next <= text.len(),
        canonical(group_tail_at(text, at, so_far, conflicts).filter),
    decreases text.len() - at, 3int,
{
    if at < text.len() && text[at] == ',' {
        lemma_filter_well(text, at + 1);
        match filter_at(text, at + 1) {
            Some(found) => {
                lemma_merge_canonical(so_far, found.filter);
                lemma_group_tail_well(
                    text,
                    found.next,
                    merge_view(so_far, found.filter),
                    conflicts + found.conflicts + self::conflicts(so_far, found.filter),
                );
            },
            None => {},
        }
    }
}

/// A group ends within the text, and is in order at every depth.
pub proof fn lemma_group_well(text: Seq<char>, at: int)
    requires
        0 <= at <= text.len(),
    ensures
        read_well(group_at(text, at), at, text),
    decreases text.len() - at, 4int,
{
    lemma_filter_well(text, at);
    match filter_at(text, at) {
        Some(first) => {
            lemma_group_tail_well(text, first.next, first.filter, first.conflicts);
        },
        None => {},
    }
}

/// A reading moved along by a number of characters.
pub open spec fn moved(parsed: Parsed, by: int) -> Parsed {
    Parsed { filter: parsed.filter, next: parsed.next + by, conflicts: parsed.conflicts }
}

/// An optional reading moved along by a number of characters.
pub open spec fn moved_option(parsed: Option<Parsed>, by: int) -> Option<Parsed> {
    match parsed {
        Some(found) => Some(moved(found, by)),
        None => None,
    }
}

/// A chained reading moved along by a number of characters.
pub open spec fn moved_child(parsed: ParsedChild, by: int) -> ParsedChild {
    ParsedChild { child: parsed.child, next: parsed.next + by, conflicts: parsed.conflicts }
}

/// A run of name characters in the back part of a text ends where it ends
/// in the back part alone.
pub proof fn lemma_name_end_moved(front: Seq<char>, back: Seq<char>, at: int)
    requires
        0 <= at <= back.len(),
    ensures
        name_end(front + back, front.len() + at) == front.len() + name_end(back, at),
    decreases back.len() - at,
{
    let text = front + back;
    if at < back.len() {
        assert(text[front.len() + at] == back[at]);
        if is_name_char(back[at]) {
            lemma_name_end_moved(front, back, at + 1);
        }
    }
}

/// Reading a chained filter in the back part of a text is reading it in the
/// back part alone.
pub proof fn lemma_chained_moved(front: Seq<char>, back: Seq<char>, at: int)
    requires
        0 <= at <= back.len(),
    ensures
        chained_at(front + back, front.len() + at) == moved_child(
            chained_at(back, at),
            front.len() as int,
        ),
    decreases back.len() - at, 0int,
{
    let text = front + back;
    if at < back.len() {
        assert(text[front.len() + at] == back[at]);
        if back[at] == '.' {
            lemma_filter_moved(front, back, at + 1);
        }
    }
}

/// Reading a struct entry in the back part of a text is reading it in the
/// back part alone.
pub proof fn lemma_struct_entry_moved(front: Seq<char>, back: Seq<char>, at: int)
    requires
        0 <= at <= back.len(),
    ensures
        struct_entry_at(front + back, front.len() + at) == moved_option(
            struct_entry_at(back, at),
            front.len() as int,
        ),
    decreases back.len() - at, 1int,
{
    let text = front + back;
    lemma_name_end_moved(front, back, at);
    lemma_name_end_within(back, at);
    let end = name_end(back, at);
    if at < end {
        lemma_chained_moved(front, back, end);
        assert(text.subrange(front.len() + at, front.len() + end) =~= back.subrange(at, end));
    }
}

/// Reading an array selection in the back part of a text is reading it in
/// the back part alone.
pub proof fn lemma_array_index_moved(front: Seq<char>, back: Seq<char>, at: int)
    requires
        0 <= at <= back.len(),
    ensures
        array_index_at(front + back, front.len() + at) == moved_option(
            array_index_at(back, at),
            front.len() as int,
        ),
    decreases back.len() - at, 1int,
{
    let text = front + back;
    if at + 2 <= back.len() {
        assert(text[front.len() + at] == back[at]);
        assert(text[front.len() + at + 1] == back[at + 1]);
        if back[at] == '[' && back[at + 1] == ']' {
            lemma_chained_moved(front, back, at + 2);
        }
    } else if at + 1 <= back.len() {
        assert(text[front.len() + at] == back[at]);
    }
}

/// Reading a filter in the back part of a text is reading it in the back
/// part alone.
pub proof fn lemma_filter_moved(front: Seq<char>, back: Seq<char>, at: int)
    requires
        0 <= at <= back.len(),
    ensures
        filter_at(front + back, front.len() + at) == moved_option(
            filter_at(back, at),
            front.len() as int,
        ),
    decreases back.len() - at, 2int,
{
    let text = front + back;
    lemma_struct_entry_moved(front, back, at);
    lemma_array_index_moved(front, back, at);
    if at < back.len() {
        assert(text[front.len() + at] == back[at]);
        if struct_entry_at(back, at) is None && array_index_at(back, at) is None && back[at]
            == '(' {
            lemma_group_moved(front, back, at + 1);
            lemma_group_well(back, at + 1);
            match group_at(back, at + 1) {
                Some(inner) => {
                    if inner.next < back.len() {
                        assert(text[front.len() + inner.next] == back[inner.next]);
                    }
                },
                None => {},
            }
        }
    }
}

/// Reading the rest of a group in the back part of a text is reading it in
/// the back part alone.
pub proof fn lemma_group_tail_moved(
    front: Seq<char>,
    back: Seq<char>,
    at: int,
    so_far: FilterView,
    conflicts: nat,
)
    requires
        0 <= at <= back.len(),
    ensures
        group_tail_at(front + back, front.len() + at, so_far, conflicts) == moved(
            group_tail_at(back, at, so_far, conflicts),
            front.len() as int,
        ),
    decreases back.len() - at, 3int,
{
    let text = front + back;
    if at < back.len() {
        assert(text[front.len() + at] == back[at]);
        if back[at] == ',' {
            lemma_filter_moved(front, back, at + 1);
            lemma_filter_well(back, at + 1);
            match filter_at(back, at + 1) {
                Some(found) => {
                    lemma_group_tail_moved(
                        front,
                        back,
                        found.next,
                        merge_view(so_far, found.filter),
                        conflicts + found.conflicts + self::conflicts(so_far, found.filter),
                    );
                },
                None => {},
            }
        }
    }
}

/// Reading a group in the back part of a text is reading it in the back
/// part alone.
pub proof fn lemma_group_moved(front: Seq<char>, back: Seq<char>, at: int)
    requires
        0 <= at <= back.len(),
    ensures
        group_at(front + back, front.len() + at) == moved_option(
            group_at(back, at),
            front.len() as int,
        ),
    decreases back.len() - at, 4int,
{
    lemma_filter_moved(front, back, at);
    lemma_filter_well(back, at);
    match filter_at(back, at) {
        Some(first) => {
            lemma_group_tail_moved(front, back, first.next, first.filter, first.conflicts);
        },
        None => {},
    }
}

/// The reading of a text gave up at this place: a dot or a comma stands
/// here that no filter follows.
pub open spec fn stuck(text: Seq<char>, at: int) -> bool {
    0 <= at < text.len() && (text[at] == '.' || text[at] == ',') && filter_at(text, at + 1)
        is None
}

/// A text that a comma and more text follow.
pub open spec fn goes_on(more: Seq<char>) -> bool {
    more.len() > 0 && more[0] == ','
}

/// A run of name characters ends where it ends when a comma and more text
/// follow the text.
pub proof fn lemma_name_end_joined(text: Seq<char>, more: Seq<char>, at: int)
    requires
        0 <= at <= text.len(),
        goes_on(more),
    ensures
        name_end(text + more, at) == name_end(text, at),
    decreases text.len() - at,
{
    let joined = text + more;
    if at < text.len() {
        assert(joined[at] == text[at]);
        if is_name_char(text[at]) {
            lemma_name_end_joined(text, more, at + 1);
        }
    } else {
        assert(joined[at] == more[0]);
    }
}

/// A chained filter that did not give up reads the same when a comma and
/// more text follow the text.
pub proof fn lemma_chained_joined(text: Seq<char>, more: Seq<char>, at: int)
    requires
        0 <= at <= text.len(),
        goes_on(more),
        !stuck(text, chained_at(text, at).next),
    ensures
        chained_at(text + more, at) == chained_at(text, at),
    decreases text.len() - at, 0int,
{
    let joined = text + more;
    if at < text.len() {
        assert(joined[at] == text[at]);
        if text[at] == '.' {
            lemma_filter_joined(text, more, at + 1);
        }
    } else {
        assert(joined[at] == more[0]);
    }
}

/// A struct entry that did not give up reads the same when a comma and more
/// text follow the text; and where there is none, there is none then.
pub proof fn lemma_struct_entry_joined(text: Seq<char>, more: Seq<char>, at: int)
    requires
        0 <= at <= text.len(),
        goes_on(more),
    ensures
        struct_entry_at(text, at) is None ==> struct_entry_at(text + more, at) is None,
        struct_entry_at(text, at) matches Some(found) ==> !stuck(text, found.next)
            ==> struct_entry_at(text + more, at) == Some(found),
    decreases text.len() - at, 1int,
{
    let joined = text + more;
    lemma_name_end_joined(text, more, at);
    lemma_name_end_within(text, at);
    let end = name_end(text, at);
    if at < end {
        if !stuck(text, chained_at(text, end).next) {
            lemma_chained_joined(text, more, end);
        }
        assert(joined.subrange(at, end) =~= text.subrange(at, end));
    }
}

/// An array selection that did not give up reads the same when a comma and
/// more text follow the text; and where there is none, there is none then.
pub proof fn lemma_array_index_joined(text: Seq<char>, more: Seq<char>, at: int)
    requires
        0 <= at <= text.len(),
        goes_on(more),
    ensures
        array_index_at(text, at) is None ==> array_index_at(text + more, at) is None,
        array_index_at(text, at) matches Some(found) ==> !stuck(text, found.next)
            ==> array_index_at(text + more, at) == Some(found),
    decreases text.len() - at, 1int,
{
    let joined = text + more;
    if at < text.len() {
        assert(joined[at] == text[at]);
    } else {
        assert(joined[at] == more[0]);
    }
    if at + 1 < text.len() {
        assert(joined[at + 1] == text[at + 1]);
    } else if at + 1 == text.len() {
        assert(joined[at + 1] == more[0]);
    }
    if at + 2 <= text.len() && text[at] == '[' && text[at + 1] == ']' {
        if !stuck(text, chained_at(text, at + 2).next) {
            lemma_chained_joined(text, more, at + 2);
        }
    }
}

/// A filter that did not give up reads the same when a comma and more text
/// follow the text.
pub proof fn lemma_filter_joined(text: Seq<char>, more: Seq<char>, at: int)
    requires
        0 <= at <= text.len(),
        goes_on(more),
        filter_at(text, at) matches Some(found) && !stuck(text, found.next),
    ensures
        filter_at(text + more, at) == filter_at(text, at),
    decreases text.len() - at, 2int,
{
    let joined = text + more;
    lemma_struct_entry_joined(text, more, at);
    lemma_array_index_joined(text, more, at);
    if struct_entry_at(text, at) is None && array_index_at(text, at) is None {
        assert(joined[at] == text[at]);
        lemma_group_well(text, at + 1);
        let inner = group_at(text, at + 1)->Some_0;
        assert(joined[inner.next] == text[inner.next]);
        lemma_group_joined(text, more, at + 1);
    }
}

/// The rest of a group gives up where the reading gave up.
proof fn lemma_group_tail_stuck(text: Seq<char>, at: int, so_far: FilterView, conflicts: nat)
    requires
        stuck(text, at),
    ensures
        group_tail_at(text, at, so_far, conflicts).next == at,
{
}

/// The rest of a group that ended within the text without giving up reads
/// the same when a comma and more text follow the text.
pub proof fn lemma_group_tail_joined(
    text: Seq<char>,
    more: Seq<char>,
    at: int,
    so_far: FilterView,
    conflicts: nat,
)
    requires
        0 <= at <= text.len(),
        goes_on(more),
        group_tail_at(text, at, so_far, conflicts).next < text.len(),
        !stuck(text, group_tail_at(text, at, so_far, conflicts).next),
    ensures
        group_tail_at(text + more, at, so_far, conflicts) == group_tail_at(
            text,
            at,
            so_far,
            conflicts,
        ),
    decreases text.len() - at, 3int,
{
    let joined = text + more;
    if at < text.len() {
        assert(joined[at] == text[at]);
        if text[at] == ',' {
            lemma_filter_well(text, at + 1);
            match filter_at(text, at + 1) {
                Some(found) => {
                    let merged = merge_view(so_far, found.filter);
                    let counted = conflicts + found.conflicts + self::conflicts(
                        so_far,
                        found.filter,
                    );
                    if stuck(text, found.next) {
                        lemma_group_tail_stuck(text, found.next, merged, counted);
                    }
                    lemma_filter_joined(text, more, at + 1);
                    lemma_group_tail_joined(text, more, found.next, merged, counted);
                },
                None => {},
            }
        }
    }
}

/// A group that ended within the text without giving up reads the same when
/// a comma and more text follow the text.
pub proof fn lemma_group_joined(text: Seq<char>, more: Seq<char>, at: int)
    requires
        0 <= at <= text.len(),
        goes_on(more),
        group_at(text, at) matches Some(found) && found.next < text.len() && !stuck(
            text,
            found.next,
        ),
    ensures
        group_at(text + more, at) == group_at(text, at),
    decreases text.len() - at, 4int,
{
    lemma_filter_well(text, at);
    let first = filter_at(text, at)->Some_0;
    if stuck(text, first.next) {
        lemma_group_tail_stuck(text, first.next, first.filter, first.conflicts);
    }
    lemma_filter_joined(text, more, at);
    lemma_group_tail_joined(text, more, first.next, first.filter, first.conflicts);
}

/// The rest of a group that read to the end of the text reads on from there
/// when a comma and more text follow the text.
pub proof fn lemma_group_tail_through(
    text: Seq<char>,
    more: Seq<char>,
    at: int,
    so_far: FilterView,
    conflicts: nat,
)
    requires
        0 <= at <= text.len(),
        goes_on(more),
        group_tail_at(text, at, so_far, conflicts).next == text.len(),
    ensures
        group_tail_at(text + more, at, so_far, conflicts) == group_tail_at(
            text + more,
            text.len() as int,
            group_tail_at(text, at, so_far, conflicts).filter,
            group_tail_at(text, at, so_far, conflicts).conflicts,
        ),
    decreases text.len() - at,
{
    let joined = text + more;
    if at < text.len() {
        assert(joined[at] == text[at]);
        lemma_filter_well(text, at + 1);
        let found = filter_at(text, at + 1)->Some_0;
        let merged = merge_view(so_far, found.filter);
        let counted = conflicts + found.conflicts + self::conflicts(so_far, found.filter);
        if stuck(text, found.next) {
            lemma_group_tail_stuck(text, found.next, merged, counted);
        }
        lemma_filter_joined(text, more, at + 1);
        lemma_group_tail_through(text, more, found.next, merged, counted);
    }
}

/// Two lists of entries in order that hold the same for every name are the
/// same list.
pub proof fn lemma_entries_equal(left: Entries, right: Entries)
    requires
        ascending(left),
        ascending(right),
        forall|name: Seq<char>| lookup(left, name) == lookup(right, name),
    ensures
        left == right,
    decreases left.len(),
{
    lemma_ascending_distinct(left);
    lemma_ascending_distinct(right);
    if left.len() == 0 {
        if right.len() > 0 {
            lemma_position_distinct(keys_of(right), 0);
            assert(lookup(right, right[0].0) is Some);
            assert(lookup(left, right[0].0) is None);
        }
        assert(left =~= right);
    } else {
        let a = left[left.len() - 1];
        lemma_position_distinct(keys_of(left), left.len() - 1);
        assert(lookup(left, a.0) == Some(a.1));
        assert(lookup(right, a.0) == Some(a.1));
        lemma_position(keys_of(right), a.0);
        let j = position(keys_of(right), a.0)->Some_0;
        assert(right[j].0 == a.0 && right[j].1 == a.1);
        let b = right[right.len() - 1];
        lemma_position_distinct(keys_of(right), right.len() - 1);
        assert(lookup(right, b.0) == Some(b.1));
        assert(lookup(left, b.0) == Some(b.1));
        lemma_position(keys_of(left), b.0);
        let i = position(keys_of(left), b.0)->Some_0;
        assert(left[i].0 == b.0);
        if i < left.len() - 1 {
            assert(precedes(left[i].0, left[left.len() - 1].0));
            if j < right.len() - 1 {
                assert(precedes(right[j].0, right[right.len() - 1].0));
            }
            lemma_precedes_asymmetric(a.0, b.0);
            lemma_precedes_asymmetric(b.0, a.0);
        }
        assert(a.0 == b.0);
        assert(a == b);
        let left_front = left.drop_last();
        let right_front = right.drop_last();
        assert(left =~= left_front.push(a));
        assert(right =~= right_front.push(b));
        assert(ascending(left_front)) by {
            assert forall|i: int, j: int| 0 <= i < j < left_front.len() implies precedes(
                left_front[i].0,
                left_front[j].0,
            ) by {
                assert(precedes(left[i].0, left[j].0));
            }
        }
        assert(ascending(right_front)) by {
            assert forall|i: int, j: int| 0 <= i < j < right_front.len() implies precedes(
                right_front[i].0,
                right_front[j].0,
            ) by {
                assert(precedes(right[i].0, right[j].0));
            }
        }
        assert forall|k: int| 0 <= k < left_front.len() implies precedes(
            (#[trigger] left_front[k]).0,
            a.0,
        ) by {
            assert(precedes(left[k].0, left[left.len() - 1].0));
        }
        assert forall|k: int| 0 <= k < right_front.len() implies precedes(
            (#[trigger] right_front[k]).0,
            a.0,
        ) by {
            assert(precedes(right[k].0, right[right.len() - 1].0));
        }
        lemma_lookup_beyond(left_front, a.0);
        lemma_lookup_beyond(right_front, a.0);
        assert forall|name: Seq<char>| lookup(left_front, name) == lookup(right_front, name) by {
            lemma_lookup_push(left_front, a, name);
            lemma_lookup_push(right_front, b, name);
            assert(lookup(left, name) == lookup(right, name));
        }
        lemma_entries_equal(left_front, right_front);
    }
}

/// Merging is associative: of three filters in order at every depth, it
/// does not matter which two are merged first.
pub proof fn lemma_merge_associative(a: FilterView, b: FilterView, c: FilterView)
    requires
        canonical(a),
        canonical(b),
        canonical(c),
    ensures
        merge_view(merge_view(a, b), c) == merge_view(a, merge_view(b, c)),
    decreases a,
{
    match (a, b, c) {
        (FilterView::Struct(t), FilterView::Struct(s), FilterView::Struct(u)) => {
            lemma_merge_entries_associative(t, s, u);
        },
        (
            FilterView::Array(Some(x)),
            FilterView::Array(Some(y)),
            FilterView::Array(Some(z)),
        ) => {
            lemma_merge_associative(*x, *y, *z);
        },
        _ => {},
    }
}

/// Merging lists of entries is associative.
pub proof fn lemma_merge_entries_associative(t: Entries, s: Entries, u: Entries)
    requires
        canonical(FilterView::Struct(t)),
        canonical(FilterView::Struct(s)),
        canonical(FilterView::Struct(u)),
    ensures
        merge_entries_view(merge_entries_view(t, s), u) == merge_entries_view(
            t,
            merge_entries_view(s, u),
        ),
    decreases t,
{
    let ts = merge_entries_view(t, s);
    let su = merge_entries_view(s, u);
    let left = merge_entries_view(ts, u);
    let right = merge_entries_view(t, su);
    lemma_merge_entries_ascending(t, s);
    lemma_merge_entries_ascending(s, u);
    lemma_merge_entries_ascending(ts, u);
    lemma_merge_entries_ascending(t, su);
    assert forall|name: Seq<char>| lookup(left, name) == lookup(right, name) by {
        lemma_merge_entries_lookup(t, s, name);
        lemma_merge_entries_lookup(s, u, name);
        lemma_merge_entries_lookup(ts, u, name);
        lemma_merge_entries_lookup(t, su, name);
        lemma_position(keys_of(t), name);
        lemma_position(keys_of(s), name);
        lemma_position(keys_of(u), name);
        match (lookup(t, name), lookup(s, name), lookup(u, name)) {
            (Some(Some(x)), Some(Some(y)), Some(Some(z))) => {
                let i = position(keys_of(t), name)->Some_0;
                let j = position(keys_of(s), name)->Some_0;
                let k = position(keys_of(u), name)->Some_0;
                assert(t[i].1 == Some(x));
                assert(s[j].1 == Some(y));
                assert(u[k].1 == Some(z));
                assert(canonical(t[i].1->Some_0));
                assert(canonical(s[j].1->Some_0));
                assert(canonical(u[k].1->Some_0));
                lemma_merge_associative(t[i].1->Some_0, y, z);
            },
            _ => {},
        }
    }
    lemma_entries_equal(left, right);
}

/// Reading the rest of a group into the merge of two filters gives the
/// first filter merged with what reading into the second gives.
pub proof fn lemma_group_tail_folds(
    text: Seq<char>,
    at: int,
    first: FilterView,
    second: FilterView,
    counted: nat,
    other: nat,
)
    requires
        0 <= at <= text.len(),
        canonical(first),
        canonical(second),
    ensures
        group_tail_at(text, at, merge_view(first, second), counted).next == group_tail_at(
            text,
            at,
            second,
            other,
        ).next,
        group_tail_at(text, at, merge_view(first, second), counted).filter == merge_view(
            first,
            group_tail_at(text, at, second, other).filter,
        ),
    decreases text.len() - at,
{
    if at < text.len() && text[at] == ',' {
        lemma_filter_well(text, at + 1);
        match filter_at(text, at + 1) {
            Some(found) => {
                lemma_merge_associative(first, second, found.filter);
                lemma_merge_canonical(second, found.filter);
                lemma_group_tail_folds(
                    text,
                    found.next,
                    first,
                    merge_view(second, found.filter),
                    counted + found.conflicts + conflicts(
                        merge_view(first, second),
                        found.filter,
                    ),
                    other + found.conflicts + conflicts(second, found.filter),
                );
            },
            None => {},
        }
    }
}

/// The whole of a text is a group.
pub open spec fn reads_as(text: Seq<char>, filter: FilterView) -> bool {
    group_at(text, 0) matches Some(found) && found.next == text.len() && found.filter == filter
}

/// Two texts joined by a comma read as the merge of what they read as.
pub proof fn lemma_joined_reads_as_merge(
    left: Seq<char>,
    right: Seq<char>,
    first: FilterView,
    second: FilterView,
)
    requires
        reads_as(left, first),
        reads_as(right, second),
    ensures
        reads_as(left + seq![','] + right, merge_view(first, second)),
{
    let more = seq![','] + right;
    let front = left + seq![','];
    let joined = left + more;
    assert(left + seq![','] + right =~= joined);
    assert(front + right =~= joined);
    let n = left.len() as int;
    // The left text reads to its end, and so reads the same within the joined text.
    lemma_filter_well(left, 0);
    let start = filter_at(left, 0)->Some_0;
    let whole = group_tail_at(left, start.next, start.filter, start.conflicts);
    assert(whole.next == n && whole.filter == first);
    if stuck(left, start.next) {
        lemma_group_tail_stuck(left, start.next, start.filter, start.conflicts);
    }
    lemma_filter_joined(left, more, 0);
    lemma_group_tail_through(left, more, start.next, start.filter, start.conflicts);
    lemma_group_well(left, 0);
    // Behind the comma the right text reads as it reads alone.
    assert(joined[n] == ',');
    lemma_filter_well(right, 0);
    let begin = filter_at(right, 0)->Some_0;
    lemma_filter_moved(front, right, 0);
    assert(filter_at(joined, n + 1) == Some(moved(begin, n + 1)));
    let merged = merge_view(first, begin.filter);
    let counted = whole.conflicts + begin.conflicts + conflicts(first, begin.filter);
    lemma_group_tail_moved(front, right, begin.next, merged, counted);
    // What follows is merged into the merge as it is merged into the right filter.
    lemma_group_tail_folds(right, begin.next, first, begin.filter, counted, begin.conflicts);
    assert(group_at(joined, 0) == Some(
        group_tail_at(joined, n, whole.filter, whole.conflicts),
    ));
    assert(group_tail_at(joined, n, first, whole.conflicts) == group_tail_at(
        joined,
        n + 1 + begin.next,
        merged,
        counted,
    ));
}

/// Two texts joined by a comma read the same in either order.
pub proof fn lemma_joined_in_either_order(
    left: Seq<char>,
    right: Seq<char>,
    first: FilterView,
    second: FilterView,
)
    requires
        reads_as(left, first),
        reads_as(right, second),
    ensures
        reads_as(left + seq![','] + right, merge_view(first, second)),
        reads_as(right + seq![','] + left, merge_view(first, second)),
{
    lemma_joined_reads_as_merge(left, right, first, second);
    lemma_joined_reads_as_merge(right, left, second, first);
    lemma_merge_commutes(first, second);
}

} // verus!
