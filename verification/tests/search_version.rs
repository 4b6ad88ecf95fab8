use std::cell::Cell;

use boilmaster::error::Error;
use boilmaster::search::index::IndexResult;
use boilmaster::search::query::{Clause, Leaf, Node, Occur, Operation, Relation, Value};
use boilmaster::search::version::{index_directory, Executor, SearchResult, Version};

fn row(score: u32, row_id: u32) -> IndexResult {
    IndexResult { score, row_id, subrow_id: 1 }
}

fn hit(score: u32, sheet: &str, row_id: u32) -> SearchResult {
    SearchResult { score, sheet: sheet.to_string(), row_id, subrow_id: 1 }
}

// An index that answers with the rows it holds.
type Canned = Vec<IndexResult>;

fn run(_: &Executor<Canned>, index: &Canned, _: &()) -> Result<Vec<IndexResult>, Error> {
    Ok(index.clone())
}

fn built(entries: Vec<(&str, Result<Canned, Error>)>) -> Vec<(String, Result<Canned, Error>)> {
    entries.into_iter().map(|(sheet, index)| (sheet.to_string(), index)).collect()
}

fn ready() -> Version<Canned> {
    let mut version = Version::new("indices".to_string());
    version
        .ingest(built(vec![
            ("Item", Ok(vec![row(5, 1), row(2, 2)])),
            ("Action", Ok(vec![row(9, 3)])),
            ("Quest", Ok(Vec::new())),
        ]))
        .expect("ingested");
    version
}

#[test]
fn sheet_names_become_flat_directory_names() {
    assert_eq!(index_directory("Item"), "Item");
    assert_eq!(index_directory("quest/000/ClsHrv001_00003"), "quest!DIR!000!DIR!ClsHrv001_00003");
    assert_eq!(index_directory("/"), "!DIR!");
    assert_eq!(index_directory(""), "");
    assert_eq!(index_directory("a!b"), "a!!b");
    // A name that already spells the escape does not collide with the escaped separator.
    assert_eq!(index_directory("a!DIR!b"), "a!!DIR!!b");
    assert_ne!(index_directory("a!DIR!b"), index_directory("a/b"));
    assert_eq!(index_directory("é/ü"), "é!DIR!ü");
}

#[test]
fn a_new_version_is_not_ready() {
    let version: Version<Canned> = Version::new("some/where".to_string());
    assert_eq!(version.directory(), "some/where");
    assert!(!version.is_ready());
    assert!(version.sheet_names().is_empty());
    match version.search(None, &(), &run) {
        Err(Error::NotReady(detail)) => assert_eq!(detail, "indices have not been ingested"),
        other => panic!("answered {other:?}"),
    }
}

#[test]
fn ingest_installs_all_or_nothing() {
    let mut version: Version<Canned> = Version::new("x".to_string());
    let outcome = version.ingest(built(vec![
        ("Item", Ok(Vec::new())),
        ("Action", Err(Error::Failure("no space".to_string()))),
        ("Quest", Err(Error::Invalid("later".to_string()))),
    ]));
    match outcome {
        Err(Error::Failure(detail)) => {
            assert_eq!(detail, "ingestion failed for sheet Action: failure: no space")
        }
        other => panic!("ingested as {other:?}"),
    }
    assert!(!version.is_ready());

    version.ingest(built(vec![("Item", Ok(Vec::new()))])).expect("ingested");
    assert!(version.is_ready());
    assert_eq!(version.sheet_names(), vec!["Item".to_string()]);

    // A failed pass leaves the installed indices in place.
    assert!(version.ingest(built(vec![("Other", Err(Error::Failure("x".to_string())))])).is_err());
    assert_eq!(version.sheet_names(), vec!["Item".to_string()]);

    // An empty pass installs an empty set.
    version.ingest(Vec::new()).expect("ingested");
    assert!(version.is_ready());
    assert!(version.sheet_names().is_empty());
}

#[test]
fn a_sheet_built_twice_keeps_the_later_index() {
    let mut version: Version<Canned> = Version::new("x".to_string());
    version
        .ingest(built(vec![
            ("Item", Ok(vec![row(1, 1)])),
            ("Action", Ok(Vec::new())),
            ("Item", Ok(vec![row(2, 2)])),
        ]))
        .expect("ingested");
    assert_eq!(version.sheet_names(), vec!["Item".to_string(), "Action".to_string()]);
    let (found, _) = version.search(None, &(), &run).expect("matches").decompose();
    assert_eq!(found, vec![hit(2, "Item", 2)]);
}

#[test]
fn search_ranks_the_matches_of_all_sheets() {
    let version = ready();
    let (all, warnings) = version.search(None, &(), &run).expect("matches").decompose();
    assert_eq!(all, vec![hit(9, "Action", 3), hit(5, "Item", 1), hit(2, "Item", 2)]);
    assert!(warnings.is_empty());
}

#[test]
fn equal_scores_keep_the_order_of_the_sheets() {
    let mut version: Version<Canned> = Version::new("x".to_string());
    version
        .ingest(built(vec![
            ("Item", Ok(vec![row(2, 1), row(1, 2)])),
            ("Action", Ok(vec![row(2, 3), row(1, 4)])),
        ]))
        .expect("ingested");
    let (all, _) = version.search(None, &(), &run).expect("matches").decompose();
    assert_eq!(
        all,
        vec![hit(2, "Item", 1), hit(2, "Action", 3), hit(1, "Item", 2), hit(1, "Action", 4)]
    );
}

#[test]
fn search_respects_the_sheet_filter() {
    let version = ready();
    let wanted = vec!["Action".to_string(), "Missing".to_string()];
    let (some, _) = version.search(Some(&wanted), &(), &run).expect("matches").decompose();
    assert_eq!(some, vec![hit(9, "Action", 3)]);
    let (none, _) = version.search(Some(&Vec::new()), &(), &run).expect("matches").decompose();
    assert!(none.is_empty());
}

#[test]
fn search_stops_at_the_first_failure() {
    let version = ready();
    let asked = Cell::new(0);
    let answer = version.search(None, &(), &|_: &Executor<Canned>, index: &Canned, _: &()| {
        asked.set(asked.get() + 1);
        if index.len() == 1 {
            Err(Error::Failure("broken".to_string()))
        } else {
            Ok(index.clone())
        }
    });
    match answer {
        Err(Error::Failure(detail)) => assert_eq!(detail, "broken"),
        other => panic!("answered {other:?}"),
    }
    assert_eq!(asked.get(), 2);
}

#[test]
fn search_passes_over_mismatches_and_warns_of_other_errors() {
    let version = ready();
    let asked = Cell::new(0);
    let answer = version.search(None, &(), &|_: &Executor<Canned>, index: &Canned, _: &()| {
        asked.set(asked.get() + 1);
        match index.len() {
            2 => Err(Error::QuerySchemaMismatch("no field".to_string())),
            1 => Err(Error::Invalid("bad value".to_string())),
            _ => Ok(vec![row(4, 4)]),
        }
    });
    let (found, warnings) = answer.expect("matches").decompose();
    assert_eq!(asked.get(), 3);
    assert_eq!(found, vec![hit(4, "Quest", 4)]);
    assert_eq!(warnings, vec!["Action: invalid input: bad value"]);
}

#[test]
fn the_executor_finds_the_index_of_a_sheet() {
    let indices: Vec<(String, Canned)> =
        vec![("Item".to_string(), vec![row(1, 1)]), ("Action".to_string(), vec![row(2, 2)])];
    let executor = Executor::new(&indices);
    assert_eq!(
        executor.search(&"Action".to_string(), &(), &run).expect("matches"),
        vec![row(2, 2)]
    );
    match executor.search(&"Quest".to_string(), &(), &run) {
        Err(Error::Failure(detail)) => assert_eq!(detail, "no index for sheet Quest"),
        other => panic!("answered {other:?}"),
    }
}

#[test]
fn a_relation_can_query_another_sheet_through_the_executor() {
    fn join(executor: &Executor<Canned>, index: &Canned, depth: &u8) -> Result<Vec<IndexResult>, Error> {
        if *depth == 0 {
            return Ok(index.clone());
        }
        let inner = executor.search(&"ClassJob".to_string(), &0, &join)?;
        Ok(index.iter().copied().filter(|row| inner.iter().any(|i| i.row_id == row.row_id)).collect())
    }
    let indices: Vec<(String, Canned)> = vec![
        ("Item".to_string(), vec![row(1, 1), row(1, 22), row(1, 3)]),
        ("ClassJob".to_string(), vec![row(1, 22)]),
    ];
    let executor = Executor::new(&indices);
    assert_eq!(executor.search(&"Item".to_string(), &1, &join).expect("matches"), vec![row(1, 22)]);
}

// An index of rows, each a list of columns by byte offset.
struct Rows(Vec<(u32, Vec<(u32, u64)>)>);

fn column(row: &[(u32, u64)], offset: u32) -> Option<u64> {
    row.iter().find(|column| column.0 == offset).map(|column| column.1)
}

fn matches(
    executor: &Executor<Rows>,
    row: &[(u32, u64)],
    node: &Node,
) -> Result<bool, Error> {
    match node {
        Node::Leaf(leaf) => match &leaf.operation {
            Operation::Equal(Value::UInt(value)) => Ok(column(row, leaf.offset) == Some(*value)),
            Operation::Relation(relation) => {
                let inner = executor.search(&relation.target, &*relation.query, &evaluate)?;
                Ok(column(row, leaf.offset)
                    .map_or(false, |key| inner.iter().any(|found| u64::from(found.row_id) == key)))
            }
        },
        Node::Clause(clause) => {
            for (occur, node) in &clause.nodes {
                let matched = matches(executor, row, node)?;
                match occur {
                    Occur::Must if !matched => return Ok(false),
                    Occur::MustNot if matched => return Ok(false),
                    _ => {}
                }
            }
            Ok(true)
        }
    }
}

fn evaluate(executor: &Executor<Rows>, index: &Rows, query: &Node) -> Result<Vec<IndexResult>, Error> {
    let mut found = Vec::new();
    for (row_id, row) in &index.0 {
        if matches(executor, row, query)? {
            found.push(IndexResult { score: 1, row_id: *row_id, subrow_id: 0 });
        }
    }
    Ok(found)
}

fn equal(offset: u32, value: u64) -> Node {
    Node::Leaf(Leaf { offset, operation: Operation::Equal(Value::UInt(value)) })
}

#[test]
fn a_query_joins_the_sheet_it_refers_to() {
    let query = Node::Clause(Clause {
        nodes: vec![
            (Occur::Must, equal(0x36, 358)),
            (Occur::Must, equal(0x38, 389)),
            (
                Occur::Must,
                Node::Leaf(Leaf {
                    offset: 0x55,
                    operation: Operation::Relation(Relation {
                        target: "ClassJob".to_string(),
                        condition: None,
                        query: Box::new(equal(0x58, 22)),
                    }),
                }),
            ),
        ],
    });
    let mut version: Version<Rows> = Version::new("x".to_string());
    version
        .ingest(vec![
            (
                "Item".to_string(),
                Ok(Rows(vec![
                    (1, vec![(0x36, 358), (0x38, 389), (0x55, 7)]),
                    (2, vec![(0x36, 358), (0x38, 389), (0x55, 8)]),
                    (3, vec![(0x36, 358), (0x38, 1), (0x55, 7)]),
                    (4, vec![(0x36, 358), (0x38, 389)]),
                ])),
            ),
            ("ClassJob".to_string(), Ok(Rows(vec![(7, vec![(0x58, 22)]), (8, vec![(0x58, 23)])]))),
        ])
        .expect("ingested");
    let wanted = vec!["Item".to_string()];
    let (found, _) = version.search(Some(&wanted), &query, &evaluate).expect("matches").decompose();
    assert_eq!(
        found,
        vec![SearchResult { score: 1, sheet: "Item".to_string(), row_id: 1, subrow_id: 0 }]
    );

    // A relation into a sheet without an index fails the query.
    let mut alone: Version<Rows> = Version::new("x".to_string());
    alone.ingest(vec![("Item".to_string(), Ok(Rows(vec![(1, vec![(0x55, 7)])])))]).expect("ingested");
    match alone.search(None, &query_into("Missing"), &evaluate) {
        Err(Error::Failure(detail)) => assert_eq!(detail, "no index for sheet Missing"),
        other => panic!("answered {other:?}"),
    }
}

fn query_into(target: &str) -> Node {
    Node::Leaf(Leaf {
        offset: 0x55,
        operation: Operation::Relation(Relation {
            target: target.to_string(),
            condition: None,
            query: Box::new(equal(0x58, 22)),
        }),
    })
}
