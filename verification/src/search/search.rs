//! The search service: limits, fan-out over sheets, and the page that a
//! query returns.

use vstd::prelude::*;
use vstd::string::StringExecFns;

use crate::error::Error;
use crate::search::index::IndexResult;
use crate::search::ranking::{descending, rank, ranked};
use crate::utility::assoc::{
    distinct, entry_names, find_entry, lemma_position, lemma_position_push, position,
};
use crate::utility::text::texts;
use crate::utility::warnings::Warnings;
use crate::version::key::VersionKey;

verus! {

/// Bounds on the number of matches a query may ask for.
#[derive(Debug, Clone, Copy, PartialEq, Eq)]
pub struct PaginationConfig {
    pub limit_default: u32,
    pub limit_max: u32,
}

/// Settings of the search service.
#[derive(Debug, Clone, Copy, PartialEq, Eq)]
pub struct Config {
    pub pagination: PaginationConfig,
}

/// A match tagged with the sheet it was found in.
#[derive(Debug, Clone, PartialEq, Eq)]
pub struct SearchResult {
    pub score: u32,
    pub sheet: String,
    pub row_id: u32,
    pub subrow_id: u16,
}

/// What querying one sheet came to: its matches, best first, or the reason
/// there are none.
#[derive(Debug)]
pub struct SheetOutcome {
    pub sheet: String,
    pub outcome: Result<Vec<IndexResult>, Error>,
}

/// The matches of a sheet, each tagged with the sheet's name.
pub open spec fn tagged(sheet: String, rows: Seq<IndexResult>) -> Seq<SearchResult> {
    rows.map_values(
        |row: IndexResult|
            SearchResult { score: row.score, sheet, row_id: row.row_id, subrow_id: row.subrow_id },
    )
}

impl SheetOutcome {
    /// The sheet failed in a way that ends the whole query.
    pub open spec fn is_failure(&self) -> bool {
        self.outcome matches Err(e) && e.is_failure()
    }

    /// The sheet failed in a way that is reported and otherwise passed over.
    pub open spec fn warns(&self) -> bool {
        self.outcome matches Err(e) && !e.is_failure() && !e.is_mismatch()
    }

    /// What the sheet adds to the matches of the query.
    pub open spec fn rows(&self) -> Seq<SearchResult> {
        match self.outcome {
            Ok(rows) => tagged(self.sheet, rows@),
            Err(_) => Seq::empty(),
        }
    }

    /// The warning for a sheet that `warns`: the sheet's name, then the
    /// error's message.
    pub open spec fn warning_text(&self) -> Seq<char> {
        self.sheet@ + ": "@ + self.outcome->Err_0.message_text()
    }
}

/// The matches of all sheets, sheet after sheet.
pub open spec fn gathered_rows(outcomes: Seq<SheetOutcome>) -> Seq<SearchResult>
    decreases outcomes.len(),
{
    if outcomes.len() == 0 {
        Seq::empty()
    } else {
        gathered_rows(outcomes.drop_last()) + outcomes.last().rows()
    }
}

/// The warnings of all sheets, sheet after sheet.
pub open spec fn gathered_warnings(outcomes: Seq<SheetOutcome>) -> Seq<Seq<char>>
    decreases outcomes.len(),
{
    if outcomes.len() == 0 {
        Seq::empty()
    } else if outcomes.last().warns() {
        gathered_warnings(outcomes.drop_last()).push(outcomes.last().warning_text())
    } else {
        gathered_warnings(outcomes.drop_last())
    }
}

/// `i` is the first sheet that failed.
pub open spec fn first_failure(outcomes: Seq<SheetOutcome>, i: int) -> bool {
    &&& 0 <= i < outcomes.len()
    &&& outcomes[i].is_failure()
    &&& forall|j: int| 0 <= j < i ==> !outcomes[j].is_failure()
}

/// The matches and warnings collected from the sheets of one query.
#[derive(Debug)]
pub struct Gathered {
    pub rows: Vec<SearchResult>,
    pub warnings: Vec<String>,
}

impl Gathered {
    /// Nothing collected yet.
    pub fn new() -> (r: Gathered)
        ensures
            r.rows@ == Seq::<SearchResult>::empty(),
            r.warnings@ == Seq::<String>::empty(),
    {
        Gathered { rows: Vec::new(), warnings: Vec::new() }
    }

    /// Takes in the outcome of one more sheet.
    ///
    /// A failure is handed back and leaves the collection as it was. A schema
    /// mismatch changes nothing. Any other error becomes a warning that names
    /// the sheet. Matches are appended, tagged with the sheet.
    pub fn absorb(&mut self, outcome: &SheetOutcome) -> (r: Result<(), Error>)
        ensures
            outcome.is_failure() ==> r == Err::<(), Error>(outcome.outcome->Err_0) && *final(self)
                == *old(self),
            !outcome.is_failure() ==> r is Ok,
            !outcome.is_failure() ==> final(self).rows@ == old(self).rows@ + outcome.rows(),
            !outcome.is_failure() ==> texts(final(self).warnings@) == if outcome.warns() {
                texts(old(self).warnings@).push(outcome.warning_text())
            } else {
                texts(old(self).warnings@)
            },
    {
        match &outcome.outcome {
            Ok(rows) => {
                let ghost before = self.rows@;
                let mut i: usize = 0;
                while i < rows.len()
                    invariant
                        i <= rows.len(),
                        self.warnings == old(self).warnings,
                        self.rows@ == before + tagged(outcome.sheet, rows@.take(i as int)),
                    decreases rows.len() - i,
                {
                    let row = rows[i];
                    self.rows.push(
                        SearchResult {
                            score: row.score,
                            sheet: outcome.sheet.clone(),
                            row_id: row.row_id,
                            subrow_id: row.subrow_id,
                        },
                    );
                    proof {
                        assert(rows@.take(i + 1).drop_last() =~= rows@.take(i as int));
                        assert(tagged(outcome.sheet, rows@.take(i + 1)) =~= tagged(
                            outcome.sheet,
                            rows@.take(i as int),
                        ).push(tagged(outcome.sheet, rows@)[i as int]));
                    }
                    i = i + 1;
                }
                proof {
                    assert(rows@.take(rows@.len() as int) =~= rows@);
                }
                Ok(())
            },
            Err(Error::Failure(detail)) => Err(Error::Failure(detail.clone())),
            Err(Error::QuerySchemaMismatch(_)) => Ok(()),
            Err(error) => {
                let mut text = outcome.sheet.clone();
                text.append(": ");
                let message = error.message();
                text.append(message.as_str());
                proof {
                    assert(text@ =~= outcome.warning_text());
                    assert(texts(self.warnings@.push(text)) =~= texts(self.warnings@).push(text@));
                }
                self.warnings.push(text);
                Ok(())
            },
        }
    }
}

/// Collects the outcomes of the sheets of one query, in order.
///
/// The first failure ends the query with that failure. Without one, the call
/// succeeds with the matches of every sheet and a warning for every sheet
/// that failed otherwise, schema mismatches excepted.
pub fn gather(outcomes: &Vec<SheetOutcome>) -> (r: Result<Gathered, Error>)
    ensures
        r is Err <==> exists|i: int| 0 <= i < outcomes@.len() && outcomes@[i].is_failure(),
        r matches Err(e) ==> exists|i: int|
            first_failure(outcomes@, i) && e == outcomes@[i].outcome->Err_0,
        r matches Ok(g) ==> g.rows@ == gathered_rows(outcomes@) && texts(g.warnings@)
            == gathered_warnings(outcomes@),
{
    let mut gathered = Gathered::new();
    let mut i: usize = 0;
    assert(texts(gathered.warnings@) =~= gathered_warnings(outcomes@.take(0)));
    while i < outcomes.len()
        invariant
            i <= outcomes.len(),
            forall|j: int| 0 <= j < i ==> !outcomes@[j].is_failure(),
            gathered.rows@ == gathered_rows(outcomes@.take(i as int)),
            texts(gathered.warnings@) == gathered_warnings(outcomes@.take(i as int)),
        decreases outcomes.len() - i,
    {
        proof {
            assert(outcomes@.take(i + 1).drop_last() =~= outcomes@.take(i as int));
            assert(outcomes@.take(i + 1).last() == outcomes@[i as int]);
        }
        match gathered.absorb(&outcomes[i]) {
            Ok(()) => {},
            Err(e) => {
                assert(first_failure(outcomes@, i as int));
                return Err(e);
            },
        }
        i = i + 1;
    }
    proof {
        assert(outcomes@.take(outcomes@.len() as int) =~= outcomes@);
    }
    Ok(gathered)
}

/// The sheets of a tally.
pub open spec fn tally_sheets(counts: Seq<(Seq<char>, nat)>) -> Seq<Seq<char>> {
    counts.map_values(|c: (Seq<char>, nat)| c.0)
}

/// The tally with one more match counted for a sheet. A sheet met for the
/// first time goes to the end.
pub open spec fn bump(counts: Seq<(Seq<char>, nat)>, sheet: Seq<char>) -> Seq<(Seq<char>, nat)> {
    match position(tally_sheets(counts), sheet) {
        Some(i) => counts.update(i, (sheet, counts[i].1 + 1)),
        None => counts.push((sheet, 1)),
    }
}

/// How many of the matches each sheet has, the sheets in the order in which
/// they first occur.
pub open spec fn tally(results: Seq<SearchResult>) -> Seq<(Seq<char>, nat)>
    decreases results.len(),
{
    if results.len() == 0 {
        Seq::empty()
    } else {
        bump(tally(results.drop_last()), results.last().sheet@)
    }
}

/// The sum of the counts of a tally.
pub open spec fn total(counts: Seq<(Seq<char>, nat)>) -> nat
    decreases counts.len(),
{
    if counts.len() == 0 {
        0
    } else {
        total(counts.drop_last()) + counts.last().1
    }
}

/// The count a tally holds for a sheet; zero for a sheet it does not hold.
pub open spec fn count_for(counts: Seq<(Seq<char>, nat)>, sheet: Seq<char>) -> nat {
    match position(tally_sheets(counts), sheet) {
        Some(i) => counts[i].1,
        None => 0,
    }
}

/// The matches found in one sheet.
pub open spec fn in_sheet(results: Seq<SearchResult>, sheet: Seq<char>) -> Seq<SearchResult> {
    results.filter(|r: SearchResult| r.sheet@ == sheet)
}

/// Raising one count of a tally raises its total by as much.
proof fn lemma_total_update(counts: Seq<(Seq<char>, nat)>, i: int, entry: (Seq<char>, nat))
    requires
        0 <= i < counts.len(),
    ensures
        total(counts.update(i, entry)) == total(counts) - counts[i].1 + entry.1,
    decreases counts.len(),
{
    let updated = counts.update(i, entry);
    if i == counts.len() - 1 {
        assert(updated.drop_last() =~= counts.drop_last());
    } else {
        assert(updated.drop_last() =~= counts.drop_last().update(i, entry));
        lemma_total_update(counts.drop_last(), i, entry);
    }
}

/// A tally names no sheet twice, counts every match once, and holds for each
/// sheet the number of matches found in it.
pub proof fn lemma_tally(results: Seq<SearchResult>)
    ensures
        distinct(tally_sheets(tally(results))),
        total(tally(results)) == results.len(),
        forall|sheet: Seq<char>| #[trigger]
            count_for(tally(results), sheet) == in_sheet(results, sheet).len(),
        forall|i: int| 0 <= i < tally(results).len() ==> tally(results)[i].1 > 0,
    decreases results.len(),
{
    reveal(Seq::filter);
    if results.len() > 0 {
        let before = tally(results.drop_last());
        let sheet = results.last().sheet@;
        let after = tally(results);
        lemma_tally(results.drop_last());
        lemma_position(tally_sheets(before), sheet);
        match position(tally_sheets(before), sheet) {
            Some(i) => {
                lemma_total_update(before, i, (sheet, before[i].1 + 1));
                assert(tally_sheets(after) =~= tally_sheets(before));
            },
            None => {
                assert(after.drop_last() =~= before);
                assert(tally_sheets(after) =~= tally_sheets(before).push(sheet));
            },
        }
        assert forall|other: Seq<char>| #[trigger]
            count_for(after, other) == in_sheet(results, other).len() by {
            assert(count_for(before, other) == in_sheet(results.drop_last(), other).len());
            lemma_position(tally_sheets(before), other);
            match position(tally_sheets(before), sheet) {
                Some(i) => {},
                None => {
                    lemma_position_push(tally_sheets(before), sheet, other);
                },
            }
        }
    }
}

/// The counts of a list of offsets.
pub open spec fn offsets_view(offsets: Seq<(String, u32)>) -> Seq<(Seq<char>, nat)> {
    offsets.map_values(|o: (String, u32)| (o.0@, o.1 as nat))
}

/// Counts the matches of each sheet.
pub fn count_by_sheet(results: &Vec<SearchResult>) -> (offsets: Vec<(String, u32)>)
    requires
        results@.len() <= u32::MAX,
    ensures
        offsets_view(offsets@) == tally(results@),
{
    let mut offsets: Vec<(String, u32)> = Vec::new();
    let mut i: usize = 0;
    assert(offsets_view(offsets@) =~= tally(results@.take(0)));
    while i < results.len()
        invariant
            i <= results.len(),
            results@.len() <= u32::MAX,
            offsets_view(offsets@) == tally(results@.take(i as int)),
        decreases results.len() - i,
    {
        proof {
            assert(results@.take(i + 1).drop_last() =~= results@.take(i as int));
            assert(results@.take(i + 1).last() == results@[i as int]);
            lemma_tally(results@.take(i as int));
            assert(entry_names(offsets@) =~= tally_sheets(offsets_view(offsets@)));
        }
        let ghost before = offsets_view(offsets@);
        match find_entry(&offsets, &results[i].sheet) {
            Some(j) => {
                proof {
                    lemma_position(entry_names(offsets@), results@[i as int].sheet@);
                    lemma_total_counts(before, j as int);
                }
                let count = offsets[j].1;
                let entry = (results[i].sheet.clone(), count + 1);
                offsets.set(j, entry);
                assert(offsets_view(offsets@) =~= before.update(
                    j as int,
                    (results@[i as int].sheet@, before[j as int].1 + 1),
                ));
            },
            None => {
                offsets.push((results[i].sheet.clone(), 1));
                assert(offsets_view(offsets@) =~= before.push((results@[i as int].sheet@, 1)));
            },
        }
        i = i + 1;
    }
    proof {
        assert(results@.take(results@.len() as int) =~= results@);
    }
    offsets
}

/// No count of a tally exceeds its total.
proof fn lemma_total_counts(counts: Seq<(Seq<char>, nat)>, i: int)
    requires
        0 <= i < counts.len(),
    ensures
        counts[i].1 <= total(counts),
    decreases counts.len(),
{
    if i < counts.len() - 1 {
        lemma_total_counts(counts.drop_last(), i);
    }
}

/// The matches a query returns.
#[derive(Debug)]
pub struct Page {
    /// The best matches, best first, no more than the limit.
    pub results: Vec<SearchResult>,
    /// Whether matches were left out because of the limit.
    pub more: bool,
    /// Where this page ends within each sheet: how many of the returned
    /// matches each sheet has. Filled in only when there is more to fetch.
    pub offsets: Vec<(String, u32)>,
}

/// Cuts the ranked matches down to a page.
///
/// The page holds the `limit` best matches, or all of them if there are
/// fewer. It signals more exactly when matches were cut, and only then does
/// it carry offsets.
pub fn paginate(rows: Vec<SearchResult>, limit: u32) -> (page: Page)
    ensures
        page.results@ == ranked(rows@).take(
            if rows@.len() > limit {
                limit as int
            } else {
                rows@.len() as int
            },
        ),
        page.results@.len() <= limit,
        page.more == (rows@.len() > limit),
        offsets_view(page.offsets@) == if rows@.len() > limit {
            tally(page.results@)
        } else {
            Seq::empty()
        },
        !page.more ==> page.offsets@.len() == 0,
        descending(page.results@),
{
    let ghost all = rows@;
    let mut results = rank(rows);
    let limit_usize: usize = limit as usize;
    let more = results.len() > limit_usize;
    results.truncate(limit_usize);
    proof {
        if !more {
            assert(results@ =~= ranked(all).take(all.len() as int));
        }
    }
    let offsets = if more {
        count_by_sheet(&results)
    } else {
        let none: Vec<(String, u32)> = Vec::new();
        assert(offsets_view(none@) =~= Seq::empty());
        none
    };
    Page { results, more, offsets }
}

/// The page is what `limit` leaves of the ranked rows.
pub open spec fn paged(rows: Seq<SearchResult>, limit: u32, page: Page) -> bool {
    &&& page.results@ == ranked(rows).take(
        if rows.len() > limit {
            limit as int
        } else {
            rows.len() as int
        },
    )
    &&& page.more == (rows.len() > limit)
    &&& offsets_view(page.offsets@) == if rows.len() > limit {
        tally(page.results@)
    } else {
        Seq::empty()
    }
}

/// The answer to a query, given what each sheet came to.
///
/// The first failing sheet fails the query with its own error. Otherwise the
/// answer is the page cut from the ranked matches of all sheets, with the
/// warnings of the sheets in order.
pub open spec fn assembled(
    limit: u32,
    outcomes: Seq<SheetOutcome>,
    answer: Result<Warnings<Page>, Error>,
) -> bool {
    &&& answer is Err <==> exists|i: int| 0 <= i < outcomes.len() && outcomes[i].is_failure()
    &&& answer matches Err(e) ==> exists|i: int|
        first_failure(outcomes, i) && e == outcomes[i].outcome->Err_0
    &&& answer matches Ok(w) ==> w.warnings() == gathered_warnings(outcomes) && paged(
        gathered_rows(outcomes),
        limit,
        w.value(),
    )
}

/// Puts the answer to a query together from the outcomes of its sheets.
pub fn assemble(limit: u32, outcomes: &Vec<SheetOutcome>) -> (answer: Result<
    Warnings<Page>,
    Error,
>)
    ensures
        assembled(limit, outcomes@, answer),
        answer matches Ok(w) ==> w.value().results@.len() <= limit,
{
    match gather(outcomes) {
        Err(e) => Err(e),
        Ok(gathered) => {
            let Gathered { rows, warnings } = gathered;
            let page = paginate(rows, limit);
            Ok(Warnings::new(page).with_warnings(warnings))
        },
    }
}

/// The search service: its limits and the versions it can answer for.
#[derive(Debug)]
pub struct Search {
    pagination_config: PaginationConfig,
    ingested: Vec<VersionKey>,
}

/// The limit a query runs with: what it asked for, or the default, and never
/// more than the maximum.
pub open spec fn effective_limit(config: PaginationConfig, requested: Option<u32>) -> u32 {
    let wanted = match requested {
        Some(limit) => limit,
        None => config.limit_default,
    };
    if wanted <= config.limit_max {
        wanted
    } else {
        config.limit_max
    }
}

/// The sheets a query goes to: the ones it names, or else all of them.
pub open spec fn targets(sheet_filter: Option<Vec<String>>, list: Vec<String>) -> Vec<String> {
    match sheet_filter {
        Some(sheets) => sheets,
        None => list,
    }
}

impl Search {
    /// The limits the service was set up with.
    pub closed spec fn pagination(&self) -> PaginationConfig {
        self.pagination_config
    }

    /// The versions whose sheets have been ingested, oldest first.
    pub closed spec fn ingested(&self) -> Seq<VersionKey> {
        self.ingested@
    }

    /// A service with the given limits and nothing ingested.
    pub fn new(config: Config) -> (r: Search)
        ensures
            r.pagination() == config.pagination,
            r.ingested() == Seq::<VersionKey>::empty(),
    {
        Search { pagination_config: config.pagination, ingested: Vec::new() }
    }

    /// The limit a query runs with.
    pub fn limit(&self, requested: Option<u32>) -> (r: u32)
        ensures
            r == effective_limit(self.pagination(), requested),
    {
        let wanted = match requested {
            Some(limit) => limit,
            None => self.pagination_config.limit_default,
        };
        if wanted <= self.pagination_config.limit_max {
            wanted
        } else {
            self.pagination_config.limit_max
        }
    }

    /// How many matches to ask of each sheet: one more than the limit, so
    /// that a full page can be told from a last page even when one sheet
    /// supplies all of it.
    pub fn result_limit(limit: u32) -> (r: u64)
        ensures
            r == limit + 1,
    {
        let wide: u64 = limit as u64;
        wide + 1
    }

    /// Whether the version has been ingested.
    pub fn is_ready(&self, version: VersionKey) -> (r: bool)
        ensures
            r == self.ingested().contains(version),
    {
        let mut i: usize = 0;
        while i < self.ingested.len()
            invariant
                i <= self.ingested.len(),
                forall|j: int| 0 <= j < i ==> self.ingested@[j] != version,
            decreases self.ingested.len() - i,
        {
            if self.ingested[i] == version {
                return true;
            }
            i = i + 1;
        }
        false
    }

    /// The announced versions that have not been ingested yet, in the order
    /// in which they were announced.
    pub fn pending(&self, announced: &Vec<VersionKey>) -> (r: Vec<VersionKey>)
        ensures
            r@ == announced@.filter(|key: VersionKey| !self.ingested().contains(key)),
    {
        let ghost fresh = |key: VersionKey| !self.ingested().contains(key);
        let mut r: Vec<VersionKey> = Vec::new();
        let mut i: usize = 0;
        assert(announced@.take(0).filter(fresh) =~= Seq::<VersionKey>::empty()) by {
            reveal(Seq::filter);
        }
        while i < announced.len()
            invariant
                i <= announced.len(),
                fresh == |key: VersionKey| !self.ingested().contains(key),
                r@ == announced@.take(i as int).filter(fresh),
            decreases announced.len() - i,
        {
            proof {
                reveal(Seq::filter);
                assert(announced@.take(i + 1).drop_last() =~= announced@.take(i as int));
                assert(announced@.take(i + 1).last() == announced@[i as int]);
            }
            if !self.is_ready(announced[i]) {
                r.push(announced[i]);
            }
            i = i + 1;
        }
        proof {
            assert(announced@.take(announced@.len() as int) =~= announced@);
        }
        r
    }

    /// Records that a version has been ingested. Recording a version twice
    /// changes nothing.
    pub fn mark_ingested(&mut self, version: VersionKey)
        ensures
            final(self).pagination() == old(self).pagination(),
            final(self).ingested() == if old(self).ingested().contains(version) {
                old(self).ingested()
            } else {
                old(self).ingested().push(version)
            },
    {
        if !self.is_ready(version) {
            self.ingested.push(version);
        }
    }

    /// The sheets a query goes to.
    pub fn sheets(sheet_filter: Option<Vec<String>>, list: Vec<String>) -> (r: Vec<String>)
        ensures
            r == targets(sheet_filter, list),
    {
        match sheet_filter {
            Some(sheets) => sheets,
            None => list,
        }
    }
}

/// Runs queries against the indices of a provider, one sheet at a time.
pub struct Executor<'a, P> {
    provider: &'a P,
}

/// What a cap leaves of an index's answer: an error as it is, and of the
/// matches the first `limit`, or all of them where there is no limit or they
/// are fewer.
pub open spec fn capped(
    raw: Result<Vec<IndexResult>, Error>,
    limit: Option<u64>,
    kept: Result<Vec<IndexResult>, Error>,
) -> bool {
    match raw {
        Err(e) => kept == Err::<Vec<IndexResult>, Error>(e),
        Ok(rows) => kept matches Ok(k) && k@ == match limit {
            Some(l) => if rows@.len() > l {
                rows@.take(l as int)
            } else {
                rows@
            },
            None => rows@,
        },
    }
}

impl<'a, P> Executor<'a, P> {
    /// The provider the executor queries.
    pub closed spec fn provider(&self) -> &'a P {
        self.provider
    }

    /// The executor over a provider.
    pub closed spec fn over(provider: &'a P) -> Self {
        Executor { provider }
    }

    /// An executor over the given provider.
    pub fn new(provider: &'a P) -> (r: Self)
        ensures
            r == Self::over(provider),
            r.provider() == provider,
    {
        Executor { provider }
    }

    /// Runs a query against one sheet of one version.
    ///
    /// `run` is the engine: it is handed the provider and the request as they
    /// are. Whatever it answers, no more matches than the limit come back.
    pub fn search<Q, F>(
        &self,
        version: VersionKey,
        sheet_name: &String,
        query: &Q,
        limit: Option<u64>,
        run: &F,
    ) -> (r: Result<Vec<IndexResult>, Error>) where
        F: Fn(&P, VersionKey, &String, &Q, Option<u64>) -> Result<Vec<IndexResult>, Error>,

        requires
            run.requires((self.provider(), version, sheet_name, query, limit)),
        ensures
            exists|raw: Result<Vec<IndexResult>, Error>|
                run.ensures((self.provider(), version, sheet_name, query, limit), raw)
                    && #[trigger] capped(raw, limit, r),
    {
        let raw = run(self.provider, version, sheet_name, query, limit);
        let ghost answered = raw;
        let kept = match raw {
            Err(e) => Err(e),
            Ok(rows) => {
                let mut rows = rows;
                match limit {
                    Some(l) => {
                        let found: u64 = rows.len() as u64;
                        if found > l {
                            rows.truncate(l as usize);
                        }
                    },
                    None => {},
                }
                let r = Ok(rows);
                assert(capped(answered, limit, r));
                r
            },
        };
        assert(capped(answered, limit, kept));
        kept
    }
}

/// The outcomes are what `query_sheet` answered for the sheets, asked one by
/// one in order until the sheets ran out or one of them failed.
pub open spec fn answered<P, F: Fn(&Executor<P>, &String, u64) -> Result<Vec<IndexResult>, Error>>(
    query_sheet: &F,
    executor: &Executor<P>,
    sheets: Seq<String>,
    result_limit: u64,
    outcomes: Seq<SheetOutcome>,
) -> bool {
    &&& outcomes.len() <= sheets.len()
    &&& forall|i: int|
        0 <= i < outcomes.len() ==> (#[trigger] outcomes[i]).sheet == sheets[i]
            && query_sheet.ensures((executor, &sheets[i], result_limit), outcomes[i].outcome)
    &&& forall|i: int| 0 <= i < outcomes.len() - 1 ==> !(#[trigger] outcomes[i]).is_failure()
    &&& outcomes.len() < sheets.len() ==> outcomes.len() > 0 && outcomes.last().is_failure()
}

impl Search {
    /// Answers a query against one version.
    ///
    /// The query goes to the sheets of `sheet_filter`, or to all of `list`
    /// where there is none. `query_sheet` binds the query to one sheet and
    /// runs it there, asking for one match more than the limit. Sheets are
    /// asked in order; a failure ends the query at once. A version that has
    /// not been ingested fails the query before any sheet is asked.
    pub fn search<P, F>(
        &self,
        provider: &P,
        version: VersionKey,
        sheet_filter: Option<Vec<String>>,
        list: Vec<String>,
        limit: Option<u32>,
        query_sheet: &F,
    ) -> (answer: Result<Warnings<Page>, Error>) where
        F: Fn(&Executor<P>, &String, u64) -> Result<Vec<IndexResult>, Error>,

        requires
            forall|executor: &Executor<P>, sheet: &String, result_limit: u64|
                query_sheet.requires((executor, sheet, result_limit)),
        ensures
            !self.ingested().contains(version) ==> (answer matches Err(Error::Failure(detail))
                && detail@ == "data for version not ready"@),
            self.ingested().contains(version) ==> exists|outcomes: Seq<SheetOutcome>|
                answered(
                    query_sheet,
                    &Executor::over(provider),
                    targets(sheet_filter, list)@,
                    (effective_limit(self.pagination(), limit) + 1) as u64,
                    outcomes,
                ) && #[trigger] assembled(
                    effective_limit(self.pagination(), limit),
                    outcomes,
                    answer,
                ),
            answer matches Ok(w) ==> w.value().results@.len() <= effective_limit(
                self.pagination(),
                limit,
            ),
    {
        if !self.is_ready(version) {
            return Err(Error::Failure(String::from_str("data for version not ready")));
        }
        let limit = self.limit(limit);
        let result_limit = Self::result_limit(limit);
        let executor = Executor::new(provider);
        let sheets = Self::sheets(sheet_filter, list);
        let mut outcomes: Vec<SheetOutcome> = Vec::new();
        let mut failed = false;
        let mut i: usize = 0;
        while i < sheets.len() && !failed
            invariant
                i <= sheets.len(),
                i == outcomes@.len(),
                forall|executor: &Executor<P>, sheet: &String, result_limit: u64|
                    query_sheet.requires((executor, sheet, result_limit)),
                forall|j: int|
                    0 <= j < i ==> (#[trigger] outcomes@[j]).sheet == sheets@[j]
                        && query_sheet.ensures(
                        (&executor, &sheets@[j], result_limit),
                        outcomes@[j].outcome,
                    ),
                forall|j: int| 0 <= j < i - 1 ==> !(#[trigger] outcomes@[j]).is_failure(),
                failed <==> i > 0 && outcomes@.last().is_failure(),
            decreases sheets.len() - i + if failed { 0int } else { 1int },
        {
            let outcome = query_sheet(&executor, &sheets[i], result_limit);
            failed =
            match &outcome {
                Err(Error::Failure(_)) => true,
                _ => false,
            };
            outcomes.push(SheetOutcome { sheet: sheets[i].clone(), outcome });
            i = i + 1;
        }
        let answer = assemble(limit, &outcomes);
        proof {
            assert(answered(query_sheet, &executor, sheets@, result_limit, outcomes@));
            assert(assembled(limit, outcomes@, answer));
        }
        answer
    }
}

} // verus!
