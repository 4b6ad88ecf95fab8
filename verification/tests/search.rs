use std::cell::Cell;

use boilmaster::error::Error;
use boilmaster::search::index::IndexResult;
use boilmaster::search::ranking::rank;
use boilmaster::search::search::{
    assemble, count_by_sheet, gather, paginate, Config, Executor, Gathered, PaginationConfig,
    Search, SearchResult, SheetOutcome,
};
use boilmaster::version::key::VersionKey;

fn row(score: u32, row_id: u32) -> IndexResult {
    IndexResult { score, row_id, subrow_id: 0 }
}

fn hit(score: u32, sheet: &str, row_id: u32) -> SearchResult {
    SearchResult { score, sheet: sheet.to_string(), row_id, subrow_id: 0 }
}

fn rows(count: u32, top: u32) -> Vec<IndexResult> {
    (0..count).map(|i| row(top - i, i)).collect()
}

fn found(sheet: &str, rows: Vec<IndexResult>) -> SheetOutcome {
    SheetOutcome { sheet: sheet.to_string(), outcome: Ok(rows) }
}

fn failed(sheet: &str, error: Error) -> SheetOutcome {
    SheetOutcome { sheet: sheet.to_string(), outcome: Err(error) }
}

fn service(limit_default: u32, limit_max: u32) -> Search {
    Search::new(Config { pagination: PaginationConfig { limit_default, limit_max } })
}

#[test]
fn two_sheets_of_eight_fill_a_page_of_ten() {
    let outcomes = vec![found("Item", rows(8, 100)), found("Action", rows(8, 100))];
    let (page, warnings) = assemble(10, &outcomes).expect("an answer").decompose();
    assert!(warnings.is_empty());
    assert_eq!(page.results.len(), 10);
    assert!(page.more);
    let total: u32 = page.offsets.iter().map(|offset| offset.1).sum();
    assert_eq!(total, 10);
    assert_eq!(page.offsets, vec![("Item".to_string(), 5), ("Action".to_string(), 5)]);
    // Equal scores keep the order of arrival: the sheet asked first comes first.
    assert_eq!(page.results[0], hit(100, "Item", 0));
    assert_eq!(page.results[1], hit(100, "Action", 0));
    assert_eq!(page.results[9], hit(96, "Action", 4));
}

#[test]
fn a_page_never_exceeds_its_limit() {
    for (matches, limit, more) in
        [(0u32, 0u32, false), (1, 0, true), (3, 3, false), (4, 3, true), (9, 3, true), (2, 3, false)]
    {
        let outcomes = vec![found("Item", rows(matches, 50))];
        let (page, _) = assemble(limit, &outcomes).expect("an answer").decompose();
        assert_eq!(page.results.len() as u32, matches.min(limit));
        assert_eq!(page.more, more, "{matches} matches with limit {limit}");
        if more {
            let total: u32 = page.offsets.iter().map(|offset| offset.1).sum();
            assert_eq!(total, limit);
        } else {
            assert!(page.offsets.is_empty());
        }
    }
}

#[test]
fn ranking_is_descending_and_stable() {
    let ranked = rank(vec![
        hit(5, "a", 0),
        hit(9, "b", 1),
        hit(5, "c", 2),
        hit(1, "d", 3),
        hit(9, "e", 4),
        hit(5, "f", 5),
    ]);
    assert_eq!(
        ranked,
        vec![
            hit(9, "b", 1),
            hit(9, "e", 4),
            hit(5, "a", 0),
            hit(5, "c", 2),
            hit(5, "f", 5),
            hit(1, "d", 3),
        ]
    );
    assert_eq!(rank(Vec::new()), Vec::new());
    assert_eq!(rank(vec![hit(0, "a", 0), hit(u32::MAX, "b", 0)])[0], hit(u32::MAX, "b", 0));
}

#[test]
fn paginate_cuts_and_counts() {
    let page = paginate(
        vec![hit(1, "a", 0), hit(4, "b", 0), hit(3, "a", 1), hit(2, "c", 0), hit(5, "a", 2)],
        4,
    );
    assert_eq!(
        page.results,
        vec![hit(5, "a", 2), hit(4, "b", 0), hit(3, "a", 1), hit(2, "c", 0)]
    );
    assert!(page.more);
    assert_eq!(
        page.offsets,
        vec![("a".to_string(), 2), ("b".to_string(), 1), ("c".to_string(), 1)]
    );
}

#[test]
fn counts_follow_first_appearance() {
    let counted = count_by_sheet(&vec![
        hit(1, "x", 0),
        hit(1, "y", 0),
        hit(1, "x", 1),
        hit(1, "x", 2),
        hit(1, "z", 0),
    ]);
    assert_eq!(
        counted,
        vec![("x".to_string(), 3), ("y".to_string(), 1), ("z".to_string(), 1)]
    );
    assert!(count_by_sheet(&Vec::new()).is_empty());
}

#[test]
fn a_failure_ends_the_query() {
    let outcomes = vec![
        found("a", rows(2, 10)),
        failed("b", Error::Invalid("bad value".to_string())),
        failed("c", Error::Failure("disk".to_string())),
        failed("d", Error::Failure("later".to_string())),
    ];
    match assemble(10, &outcomes) {
        Err(Error::Failure(detail)) => assert_eq!(detail, "disk"),
        other => panic!("answered {other:?}"),
    }
    match gather(&outcomes) {
        Err(Error::Failure(detail)) => assert_eq!(detail, "disk"),
        other => panic!("gathered {other:?}"),
    }
}

#[test]
fn mismatches_are_skipped_and_other_errors_warn() {
    let outcomes = vec![
        failed("a", Error::QuerySchemaMismatch("no such field".to_string())),
        found("b", vec![row(3, 7)]),
        failed("c", Error::Invalid("bad value".to_string())),
        failed("d", Error::NotReady("soon".to_string())),
        failed("e", Error::QuerySchemaMismatch("no such field".to_string())),
    ];
    let (page, warnings) = assemble(5, &outcomes).expect("an answer").decompose();
    assert_eq!(page.results, vec![hit(3, "b", 7)]);
    assert!(!page.more);
    assert_eq!(warnings, vec!["c: invalid input: bad value", "d: not ready: soon"]);
}

#[test]
fn only_warnings_is_still_an_answer() {
    let outcomes = vec![
        failed("a", Error::QuerySchemaMismatch("x".to_string())),
        failed("b", Error::Invalid("y".to_string())),
    ];
    let (page, warnings) = assemble(5, &outcomes).expect("an answer").decompose();
    assert!(page.results.is_empty());
    assert!(!page.more);
    assert_eq!(warnings, vec!["b: invalid input: y"]);
    let (page, warnings) = assemble(5, &Vec::new()).expect("an answer").decompose();
    assert!(page.results.is_empty() && warnings.is_empty());
}

#[test]
fn absorb_leaves_the_collection_alone_on_failure() {
    let mut gathered = Gathered::new();
    assert!(gathered.absorb(&found("a", vec![row(1, 2)])).is_ok());
    let outcome = failed("b", Error::Failure("gone".to_string()));
    assert!(gathered.absorb(&outcome).is_err());
    assert_eq!(gathered.rows, vec![hit(1, "a", 2)]);
    assert!(gathered.warnings.is_empty());
}

#[test]
fn error_messages_name_their_kind() {
    assert_eq!(Error::Failure("x".to_string()).message(), "failure: x");
    assert_eq!(
        Error::QuerySchemaMismatch("x".to_string()).message(),
        "query <-> schema mismatch: x"
    );
    assert_eq!(Error::Invalid("x".to_string()).message(), "invalid input: x");
    assert_eq!(Error::NotReady("x".to_string()).message(), "not ready: x");
}

#[test]
fn limits_fall_back_and_are_capped() {
    let search = service(25, 100);
    assert_eq!(search.limit(None), 25);
    assert_eq!(search.limit(Some(7)), 7);
    assert_eq!(search.limit(Some(100)), 100);
    assert_eq!(search.limit(Some(101)), 100);
    assert_eq!(search.limit(Some(0)), 0);
    assert_eq!(service(500, 100).limit(None), 100);
    assert_eq!(Search::result_limit(10), 11);
    assert_eq!(Search::result_limit(0), 1);
    assert_eq!(Search::result_limit(u32::MAX), 4_294_967_296);
}

#[test]
fn only_new_versions_are_pending() {
    let mut search = service(10, 10);
    let announced = vec![VersionKey(3), VersionKey(1), VersionKey(2)];
    assert_eq!(search.pending(&announced), announced);
    search.mark_ingested(VersionKey(1));
    search.mark_ingested(VersionKey(1));
    assert!(search.is_ready(VersionKey(1)));
    assert!(!search.is_ready(VersionKey(2)));
    assert_eq!(search.pending(&announced), vec![VersionKey(3), VersionKey(2)]);
    search.mark_ingested(VersionKey(3));
    search.mark_ingested(VersionKey(2));
    assert!(search.pending(&announced).is_empty());
}

#[test]
fn sheets_come_from_the_filter_or_the_list() {
    let list = vec!["a".to_string(), "b".to_string()];
    assert_eq!(Search::sheets(None, list.clone()), list);
    assert_eq!(Search::sheets(Some(vec!["c".to_string()]), list.clone()), vec!["c".to_string()]);
    assert!(Search::sheets(Some(Vec::new()), list).is_empty());
}

#[test]
fn a_query_needs_an_ingested_version() {
    let search = service(10, 10);
    let asked = Cell::new(0);
    let answer = search.search(
        &(),
        VersionKey(1),
        None,
        vec!["a".to_string()],
        None,
        &|_: &Executor<()>, _: &String, _: u64| {
            asked.set(asked.get() + 1);
            Ok(Vec::new())
        },
    );
    match answer {
        Err(Error::Failure(detail)) => assert_eq!(detail, "data for version not ready"),
        other => panic!("answered {other:?}"),
    }
    assert_eq!(asked.get(), 0);
}

#[test]
fn a_query_asks_each_sheet_for_one_more_than_the_limit() {
    let mut search = service(10, 50);
    search.mark_ingested(VersionKey(1));
    let asked = Cell::new(Vec::new());
    let answer = search.search(
        &(),
        VersionKey(1),
        None,
        vec!["Item".to_string(), "Action".to_string()],
        Some(10),
        &|_: &Executor<()>, sheet: &String, result_limit: u64| {
            let mut seen = asked.take();
            seen.push((sheet.clone(), result_limit));
            asked.set(seen);
            Ok(rows(8, 100))
        },
    );
    let (page, warnings) = answer.expect("an answer").decompose();
    assert_eq!(asked.take(), vec![("Item".to_string(), 11), ("Action".to_string(), 11)]);
    assert!(warnings.is_empty());
    assert_eq!(page.results.len(), 10);
    assert!(page.more);
    assert_eq!(page.offsets.iter().map(|offset| offset.1).sum::<u32>(), 10);
}

#[test]
fn a_query_stops_at_the_first_failure() {
    let mut search = service(10, 50);
    search.mark_ingested(VersionKey(1));
    let asked = Cell::new(0);
    let answer = search.search(
        &(),
        VersionKey(1),
        Some(vec!["a".to_string(), "b".to_string(), "c".to_string()]),
        vec!["z".to_string()],
        None,
        &|_: &Executor<()>, sheet: &String, _: u64| {
            asked.set(asked.get() + 1);
            match sheet.as_str() {
                "a" => Err(Error::QuerySchemaMismatch("no field".to_string())),
                "b" => Err(Error::Failure("broken".to_string())),
                _ => Ok(rows(1, 1)),
            }
        },
    );
    match answer {
        Err(Error::Failure(detail)) => assert_eq!(detail, "broken"),
        other => panic!("answered {other:?}"),
    }
    assert_eq!(asked.get(), 2);
}

#[test]
fn the_executor_hands_the_request_on_and_caps_the_answer() {
    let provider = 7u8;
    let executor = Executor::new(&provider);
    let run = |provider: &u8, version: VersionKey, sheet: &String, query: &u32, limit: Option<u64>| {
        assert_eq!((*provider, version, sheet.as_str(), *query), (7, VersionKey(9), "Item", 42));
        assert!(limit == Some(3) || limit.is_none() || limit == Some(0));
        Ok(rows(5, 10))
    };
    let sheet = "Item".to_string();
    let capped = executor.search(VersionKey(9), &sheet, &42, Some(3), &run).expect("matches");
    assert_eq!(capped, vec![row(10, 0), row(9, 1), row(8, 2)]);
    let all = executor.search(VersionKey(9), &sheet, &42, None, &run).expect("matches");
    assert_eq!(all.len(), 5);
    let none = executor.search(VersionKey(9), &sheet, &42, Some(0), &run).expect("matches");
    assert!(none.is_empty());
    let fail = |_: &u8, _: VersionKey, _: &String, _: &u32, _: Option<u64>| {
        Err(Error::Invalid("no".to_string()))
    };
    assert!(matches!(
        executor.search(VersionKey(9), &sheet, &42, Some(3), &fail),
        Err(Error::Invalid(_))
    ));
}
