//! The indices of one version of the corpus: where they live on disk, how
//! they are installed, and how a query fans out over them.

use vstd::prelude::*;
use vstd::string::StringExecFns;

use crate::error::Error;
use crate::search::index::IndexResult;
pub use crate::search::search::SearchResult;
use crate::search::ranking::{descending, rank, ranked};
use crate::search::search::{gathered_rows, gathered_warnings, Gathered, SheetOutcome};
use crate::utility::assoc::{
    distinct, entry_names, find_entry, find_name, lemma_position, lemma_position_distinct,
    position,
};
use crate::utility::text::{chars_of, push_char, texts};
use crate::utility::warnings::Warnings;

verus! {

/// How one character of a sheet name is written in a directory name. The
/// path separator and the escape character itself are spelled out; every
/// other character stands for itself.
pub open spec fn escaped_char(c: char) -> Seq<char> {
    if c == '/' {
        seq!['!', 'D', 'I', 'R', '!']
    } else if c == '!' {
        seq!['!', '!']
    } else {
        seq![c]
    }
}

/// The directory name of a sheet: its name, character by character, escaped.
pub open spec fn escaped(name: Seq<char>) -> Seq<char>
    decreases name.len(),
{
    if name.len() == 0 {
        Seq::empty()
    } else {
        escaped(name.drop_last()) + escaped_char(name.last())
    }
}

/// The sheet name that a directory name stands for, if it stands for one.
pub open spec fn unescaped(text: Seq<char>) -> Option<Seq<char>>
    decreases text.len(),
{
    if text.len() == 0 {
        Some(Seq::empty())
    } else if text[0] == '/' {
        None
    } else if text[0] != '!' {
        match unescaped(text.skip(1)) {
            Some(rest) => Some(seq![text[0]] + rest),
            None => None,
        }
    } else if text.len() >= 2 && text[1] == '!' {
        match unescaped(text.skip(2)) {
            Some(rest) => Some(seq!['!'] + rest),
            None => None,
        }
    } else if text.len() >= 5 && text[1] == 'D' && text[2] == 'I' && text[3] == 'R' && text[4]
        == '!' {
        match unescaped(text.skip(5)) {
            Some(rest) => Some(seq!['/'] + rest),
            None => None,
        }
    } else {
        None
    }
}

/// Escaping goes through concatenation.
pub proof fn lemma_escaped_concat(a: Seq<char>, b: Seq<char>)
    ensures
        escaped(a + b) == escaped(a) + escaped(b),
    decreases b.len(),
{
    if b.len() == 0 {
        assert(a + b =~= a);
        assert(escaped(a) + escaped(b) =~= escaped(a));
    } else {
        assert((a + b).drop_last() =~= a + b.drop_last());
        assert((a + b).last() == b.last());
        lemma_escaped_concat(a, b.drop_last());
        assert(escaped(a + b) =~= escaped(a) + escaped(b));
    }
}

/// Escaping is reversible: the directory name of a sheet stands for that
/// sheet and no other.
pub proof fn lemma_unescaped_escaped(name: Seq<char>)
    ensures
        unescaped(escaped(name)) == Some(name),
    decreases name.len(),
{
    if name.len() > 0 {
        let c = name[0];
        let rest = name.skip(1);
        assert(name =~= seq![c] + rest);
        lemma_escaped_concat(seq![c], rest);
        assert(seq![c].drop_last() =~= Seq::<char>::empty());
        assert(escaped(seq![c].drop_last()) =~= Seq::<char>::empty());
        assert(seq![c].last() == c);
        assert(escaped(seq![c]) =~= escaped_char(c));
        let text = escaped(name);
        assert(text == escaped_char(c) + escaped(rest));
        lemma_unescaped_escaped(rest);
        if c == '/' {
            assert(text.skip(5) =~= escaped(rest));
            assert(seq!['/'] + rest =~= name);
        } else if c == '!' {
            assert(text.skip(2) =~= escaped(rest));
            assert(seq!['!'] + rest =~= name);
        } else {
            assert(text.skip(1) =~= escaped(rest));
            assert(text[0] == c);
        }
    }
}

/// Two sheets never share a directory name.
pub proof fn lemma_escaped_injective(a: Seq<char>, b: Seq<char>)
    requires
        escaped(a) == escaped(b),
    ensures
        a == b,
{
    lemma_unescaped_escaped(a);
    lemma_unescaped_escaped(b);
}

/// A directory name holds no path separator.
pub proof fn lemma_escaped_flat(name: Seq<char>)
    ensures
        forall|i: int| 0 <= i < escaped(name).len() ==> escaped(name)[i] != '/',
    decreases name.len(),
{
    if name.len() > 0 {
        lemma_escaped_flat(name.drop_last());
        let head = escaped(name.drop_last());
        let tail = escaped_char(name.last());
        assert forall|i: int| 0 <= i < escaped(name).len() implies escaped(name)[i] != '/' by {
            if i >= head.len() {
                assert(escaped(name)[i] == tail[i - head.len()]);
            }
        }
    }
}

/// The name of the directory, below a version's path, that holds the index
/// of a sheet.
pub fn index_directory(sheet_name: &str) -> (r: String)
    ensures
        r@ == escaped(sheet_name@),
        unescaped(r@) == Some(sheet_name@),
        forall|i: int| 0 <= i < r@.len() ==> r@[i] != '/',
{
    let name = chars_of(sheet_name);
    let mut r = String::new();
    let mut i: usize = 0;
    while i < name.len()
        invariant
            i <= name.len(),
            r@ == escaped(name@.take(i as int)),
        decreases name.len() - i,
    {
        proof {
            assert(name@.take(i + 1).drop_last() =~= name@.take(i as int));
            assert(name@.take(i + 1).last() == name@[i as int]);
            reveal_strlit("!DIR!");
            reveal_strlit("!!");
        }
        let c = name[i];
        if c == '/' {
            r.append("!DIR!");
            assert("!DIR!"@ =~= escaped_char(c));
        } else if c == '!' {
            r.append("!!");
            assert("!!"@ =~= escaped_char(c));
        } else {
            push_char(&mut r, c);
            assert(r@ =~= escaped(name@.take(i as int)) + escaped_char(c));
        }
        i = i + 1;
    }
    proof {
        assert(name@.take(name@.len() as int) =~= name@);
        lemma_unescaped_escaped(sheet_name@);
        lemma_escaped_flat(sheet_name@);
    }
    r
}

/// The table with one more index built: it takes the place of the index the
/// table holds for the same sheet, or else goes to the end.
pub open spec fn installed_one<I>(table: Seq<(String, I)>, built: (String, I)) -> Seq<(String, I)> {
    match position(entry_names(table), built.0@) {
        Some(i) => table.update(i, built),
        None => table.push(built),
    }
}

/// The table that a run of builds leaves behind, all of them having
/// succeeded.
pub open spec fn installed<I>(built: Seq<(String, Result<I, Error>)>) -> Seq<(String, I)>
    decreases built.len(),
{
    if built.len() == 0 {
        Seq::empty()
    } else {
        installed_one(installed(built.drop_last()), (built.last().0, built.last().1->Ok_0))
    }
}

/// `i` is the first build that failed.
pub open spec fn first_failed<I>(built: Seq<(String, Result<I, Error>)>, i: int) -> bool {
    &&& 0 <= i < built.len()
    &&& built[i].1 is Err
    &&& forall|j: int| 0 <= j < i ==> built[j].1 is Ok
}

/// What is reported when the index of a sheet could not be built.
pub open spec fn ingest_failure(sheet: Seq<char>, error: Error) -> Seq<char> {
    "ingestion failed for sheet "@ + sheet + ": "@ + error.message_text()
}

/// Installing an index keeps the sheets of a table distinct.
proof fn lemma_installed_one<I>(table: Seq<(String, I)>, built: (String, I))
    requires
        distinct(entry_names(table)),
    ensures
        distinct(entry_names(installed_one(table, built))),
{
    lemma_position(entry_names(table), built.0@);
    match position(entry_names(table), built.0@) {
        Some(i) => {
            assert(entry_names(table.update(i, built)) =~= entry_names(table));
        },
        None => {
            assert(entry_names(table.push(built)) =~= entry_names(table).push(built.0@));
        },
    }
}

/// The wanted sheets among a table's entries: all of them where no sheet
/// is asked for by name.
pub open spec fn picked<I>(table: Seq<(String, I)>, sheet_filter: Option<Seq<String>>) -> Seq<
    (String, I),
> {
    table.filter(
        |entry: (String, I)|
            match sheet_filter {
                Some(sheets) => position(texts(sheets), entry.0@) is Some,
                None => true,
            },
    )
}

/// The outcomes are what `run` answered for the picked indices, asked one by
/// one in order until they ran out or one of them failed.
pub open spec fn fanned_out<I, Q, F: Fn(&Executor<I>, &I, &Q) -> Result<Vec<IndexResult>, Error>>(
    run: &F,
    executor: &Executor<I>,
    picked: Seq<(String, I)>,
    query: &Q,
    outcomes: Seq<SheetOutcome>,
) -> bool {
    &&& outcomes.len() <= picked.len()
    &&& forall|i: int|
        0 <= i < outcomes.len() ==> (#[trigger] outcomes[i]).sheet == picked[i].0 && run.ensures(
            (executor, &picked[i].1, query),
            outcomes[i].outcome,
        )
    &&& forall|i: int| 0 <= i < outcomes.len() - 1 ==> !(#[trigger] outcomes[i]).is_failure()
    &&& outcomes.len() < picked.len() ==> outcomes.len() > 0 && outcomes.last().is_failure()
}

/// The answer of a fan-out: the failure it stopped at, or else the matches
/// of every index, ranked, with a warning for every index that gave another
/// error than a schema mismatch.
pub open spec fn collected(
    outcomes: Seq<SheetOutcome>,
    answer: Result<Warnings<Vec<SearchResult>>, Error>,
) -> bool {
    if outcomes.len() > 0 && outcomes.last().is_failure() {
        answer == Err::<Warnings<Vec<SearchResult>>, Error>(outcomes.last().outcome->Err_0)
    } else {
        answer matches Ok(found) && found.value()@ == ranked(gathered_rows(outcomes))
            && found.warnings() == gathered_warnings(outcomes)
    }
}

/// The indices of one version: one per sheet, once they have been built.
pub struct Version<I> {
    path: String,
    indices: Option<Vec<(String, I)>>,
}

/// A view of the indices of a version that stays the same for the length of
/// one query, whatever is installed meanwhile.
pub struct Executor<'a, I> {
    indices: &'a Vec<(String, I)>,
}

impl<'a, I> Executor<'a, I> {
    /// The indices, each under the name of its sheet.
    pub closed spec fn indices(&self) -> Seq<(String, I)> {
        self.indices@
    }

    /// The executor over a table of indices.
    pub closed spec fn over(indices: &'a Vec<(String, I)>) -> Self {
        Executor { indices }
    }

    /// An executor over a table of indices.
    pub fn new(indices: &'a Vec<(String, I)>) -> (r: Self)
        ensures
            r == Self::over(indices),
            r.indices() == indices@,
    {
        Executor { indices }
    }

    /// Runs a query against the index of one sheet.
    ///
    /// `run` is the engine: it is handed this executor, for the queries that
    /// a relation makes into other sheets, the index and the query. A sheet
    /// without an index is a failure.
    pub fn search<Q, F>(&self, sheet: &String, query: &Q, run: &F) -> (r: Result<
        Vec<IndexResult>,
        Error,
    >) where F: Fn(&Executor<I>, &I, &Q) -> Result<Vec<IndexResult>, Error>
        requires
            forall|index: &I| run.requires((self, index, query)),
        ensures
            match position(entry_names(self.indices()), sheet@) {
                Some(i) => run.ensures((self, &self.indices()[i].1, query), r),
                None => r matches Err(Error::Failure(detail)) && detail@ == "no index for sheet "@
                    + sheet@,
            },
    {
        match find_entry(self.indices, sheet) {
            Some(i) => {
                proof {
                    lemma_position(entry_names(self.indices@), sheet@);
                }
                run(self, &self.indices[i].1, query)
            },
            None => {
                let detail = String::from_str("no index for sheet ").concat(sheet.as_str());
                Err(Error::Failure(detail))
            },
        }
    }
}

impl<I> Version<I> {
    #[verifier::type_invariant]
    closed spec fn sheets_distinct(&self) -> bool {
        self.indices matches Some(table) ==> distinct(entry_names(table@))
    }

    /// The directory that holds the indices.
    pub closed spec fn path(&self) -> Seq<char> {
        self.path@
    }

    /// Whether the indices have been installed.
    pub closed spec fn ready(&self) -> bool {
        self.indices is Some
    }

    /// The installed indices, each under the name of its sheet.
    pub closed spec fn table(&self) -> &Vec<(String, I)> {
        &self.indices->Some_0
    }

    /// A version at the given directory, with no index installed.
    pub fn new(path: String) -> (r: Self)
        ensures
            r.path() == path@,
            !r.ready(),
    {
        Version { path, indices: None }
    }

    /// The directory that holds the indices.
    pub fn directory(&self) -> (r: &String)
        ensures
            r@ == self.path(),
    {
        &self.path
    }

    /// Whether the indices have been installed.
    pub fn is_ready(&self) -> (r: bool)
        ensures
            r == self.ready(),
    {
        self.indices.is_some()
    }

    /// The sheets of an installed version are pairwise distinct.
    pub fn sheet_names(&self) -> (r: Vec<String>)
        ensures
            self.ready() ==> texts(r@) == entry_names(self.table()@) && distinct(texts(r@)),
            !self.ready() ==> r@.len() == 0,
    {
        proof {
            use_type_invariant(self);
        }
        let mut r: Vec<String> = Vec::new();
        match &self.indices {
            Some(table) => {
                let mut i: usize = 0;
                while i < table.len()
                    invariant
                        i <= table.len(),
                        r@.len() == i,
                        texts(r@) == entry_names(table@.take(i as int)),
                    decreases table.len() - i,
                {
                    let ghost before = r@;
                    r.push(table[i].0.clone());
                    assert forall|k: int| 0 <= k < i + 1 implies texts(r@)[k] == entry_names(
                        table@.take(i + 1),
                    )[k] by {
                        if k < i {
                            assert(texts(before)[k] == entry_names(table@.take(i as int))[k]);
                        }
                    }
                    assert(texts(r@) =~= entry_names(table@.take(i + 1)));
                    i = i + 1;
                }
                assert(table@.take(table@.len() as int) =~= table@);
            },
            None => {},
        }
        r
    }

    /// Installs the indices of the version, once every sheet has been built.
    ///
    /// One sheet that could not be built fails the whole pass: nothing is
    /// installed, and the failure names the first such sheet. Otherwise the
    /// indices replace whatever was installed before, all at once.
    pub fn ingest(&mut self, built: Vec<(String, Result<I, Error>)>) -> (r: Result<(), Error>)
        ensures
            final(self).path() == old(self).path(),
            r is Err <==> exists|i: int| 0 <= i < built@.len() && built@[i].1 is Err,
            r is Err ==> final(self).ready() == old(self).ready() && final(self).table() == old(
                self,
            ).table(),
            r matches Err(e) ==> exists|i: int|
                first_failed(built@, i) && (e matches Error::Failure(detail) && detail@
                    == ingest_failure(built@[i].0@, built@[i].1->Err_0)),
            r is Ok ==> final(self).ready() && final(self).table()@ == installed(built@),
    {
        let mut table: Vec<(String, I)> = Vec::new();
        let ghost all = built@;
        for entry in it: built
            invariant
                it.seq() == all,
                forall|j: int| 0 <= j < it.index() ==> all[j].1 is Ok,
                table@ == installed(all.take(it.index() as int)),
                distinct(entry_names(table@)),
                *self == *old(self),
        {
            let ghost done = it.index() as int;
            proof {
                assert(all.take(done + 1).drop_last() =~= all.take(done));
                assert(all.take(done + 1).last() == all[done]);
            }
            let (sheet, outcome) = entry;
            match outcome {
                Err(error) => {
                    let mut detail = String::from_str("ingestion failed for sheet ");
                    detail.append(sheet.as_str());
                    detail.append(": ");
                    let message = error.message();
                    detail.append(message.as_str());
                    assert(first_failed(all, done));
                    assert(detail@ =~= ingest_failure(sheet@, error));
                    return Err(Error::Failure(detail));
                },
                Ok(index) => {
                    proof {
                        lemma_installed_one(table@, (sheet, index));
                        lemma_position(entry_names(table@), sheet@);
                    }
                    match find_entry(&table, &sheet) {
                        Some(i) => {
                            table.set(i, (sheet, index));
                        },
                        None => {
                            table.push((sheet, index));
                        },
                    }
                },
            }
        }
        proof {
            assert(all.take(all.len() as int) =~= all);
        }
        self.indices = Some(table);
        Ok(())
    }

    /// Fans a query out over the indices of the version.
    ///
    /// The query goes to the sheets of `sheet_filter` that have an index, or
    /// to every index where there is none, in the order in which the indices
    /// were installed. A failure ends the query at once with that failure.
    /// An index whose schema does not match the query is passed over; any
    /// other error becomes a warning that names the sheet. The matches of
    /// all indices come back together, each tagged with its sheet, best
    /// first; matches of equal score keep the order in which they came. A
    /// version without installed indices is not ready.
    pub fn search<Q, F>(&self, sheet_filter: Option<&Vec<String>>, query: &Q, run: &F) -> (r:
        Result<Warnings<Vec<SearchResult>>, Error>) where
        F: Fn(&Executor<I>, &I, &Q) -> Result<Vec<IndexResult>, Error>,

        requires
            forall|executor: &Executor<I>, index: &I| run.requires((executor, index, query)),
        ensures
            !self.ready() ==> (r matches Err(Error::NotReady(detail)) && detail@
                == "indices have not been ingested"@),
            self.ready() ==> exists|outcomes: Seq<SheetOutcome>|
                fanned_out(
                    run,
                    &Executor::over(self.table()),
                    picked(
                        self.table()@,
                        match sheet_filter {
                            Some(sheets) => Some(sheets@),
                            None => None,
                        },
                    ),
                    query,
                    outcomes,
                ) && #[trigger] collected(outcomes, r),
            r matches Ok(found) ==> descending(found.value()@),
    {
        proof {
            use_type_invariant(self);
        }
        let table = match &self.indices {
            Some(table) => table,
            None => {
                return Err(Error::NotReady(String::from_str("indices have not been ingested")));
            },
        };
        let ghost wanted: Option<Seq<String>> = match sheet_filter {
            Some(sheets) => Some(sheets@),
            None => None,
        };
        let executor = Executor::new(table);
        let mut gathered = Gathered::new();
        let ghost mut outcomes: Seq<SheetOutcome> = Seq::empty();
        let mut i: usize = 0;
        proof {
            reveal(Seq::filter);
            assert(picked(table@.take(0), wanted) =~= Seq::empty());
            assert(texts(gathered.warnings@) =~= gathered_warnings(outcomes));
        }
        while i < table.len()
            invariant
                i <= table.len(),
                distinct(entry_names(table@)),
                self.ready(),
                table == self.table(),
                executor == Executor::over(table),
                executor.indices() == table@,
                wanted == match sheet_filter {
                    Some(sheets) => Some(sheets@),
                    None => None,
                },
                forall|executor: &Executor<I>, index: &I| run.requires((executor, index, query)),
                outcomes.len() == picked(table@.take(i as int), wanted).len(),
                forall|j: int|
                    0 <= j < outcomes.len() ==> (#[trigger] outcomes[j]).sheet == picked(
                        table@.take(i as int),
                        wanted,
                    )[j].0 && run.ensures(
                        (&executor, &picked(table@.take(i as int), wanted)[j].1, query),
                        outcomes[j].outcome,
                    ),
                forall|j: int| 0 <= j < outcomes.len() ==> !(#[trigger] outcomes[j]).is_failure(),
                gathered.rows@ == gathered_rows(outcomes),
                texts(gathered.warnings@) == gathered_warnings(outcomes),
            decreases table.len() - i,
        {
            let ghost before = picked(table@.take(i as int), wanted);
            proof {
                reveal(Seq::filter);
                assert(table@.take(i + 1).drop_last() =~= table@.take(i as int));
                assert(table@.take(i + 1).last() == table@[i as int]);
            }
            let wanted_here = match sheet_filter {
                Some(sheets) => find_name(sheets, &table[i].0).is_some(),
                None => true,
            };
            if wanted_here {
                assert(picked(table@.take(i + 1), wanted) == before.push(table@[i as int]));
                proof {
                    lemma_position_distinct(entry_names(table@), i as int);
                }
                let outcome = executor.search(&table[i].0, query, run);
                let sheet = SheetOutcome { sheet: table[i].0.clone(), outcome };
                proof {
                    let earlier = outcomes;
                    outcomes = outcomes.push(sheet);
                    assert(outcomes.drop_last() =~= earlier);
                }
                match gathered.absorb(&sheet) {
                    Ok(()) => {},
                    Err(failure) => {
                        proof {
                            lemma_picked_prefix(table@, i + 1, wanted);
                        }
                        let answer = Err(failure);
                        assert(collected(outcomes, answer));
                        return answer;
                    },
                }
            } else {
                assert(picked(table@.take(i + 1), wanted) == before);
            }
            i = i + 1;
        }
        proof {
            assert(table@.take(table@.len() as int) =~= table@);
        }
        let Gathered { rows, warnings } = gathered;
        let answer = Ok(Warnings::new(rank(rows)).with_warnings(warnings));
        assert(collected(outcomes, answer));
        answer
    }
}

/// The picked entries of the front of a table are the front of the table's
/// picked entries.
proof fn lemma_picked_prefix<I>(table: Seq<(String, I)>, n: int, wanted: Option<Seq<String>>)
    requires
        0 <= n <= table.len(),
    ensures
        picked(table.take(n), wanted).len() <= picked(table, wanted).len(),
        forall|j: int|
            0 <= j < picked(table.take(n), wanted).len() ==> picked(table.take(n), wanted)[j]
                == picked(table, wanted)[j],
{
    let keep = |entry: (String, I)|
        match wanted {
            Some(sheets) => position(texts(sheets), entry.0@) is Some,
            None => true,
        };
    assert(table =~= table.take(n) + table.skip(n));
    Seq::filter_distributes_over_add(table.take(n), table.skip(n), keep);
}

} // verus!
