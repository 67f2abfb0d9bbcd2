use jwst::block::{EditKind, EditRecord};
use jwst::workspace::{TrxOp, Workspace, WorkspaceError};

#[test]
fn workspace() {
    let mut workspace = Workspace::new("test", 1);

    assert_eq!(workspace.id(), "test");
    assert_eq!(workspace.block_count(), 0);
    assert_eq!(workspace.updated_count(), 0);

    let block = workspace.create("block", "text", 0).unwrap();

    assert_eq!(workspace.block_count(), 1);
    assert_eq!(workspace.updated_count(), 1);
    assert_eq!(block.id(), "block");
    assert_eq!(block.flavor(), "text");

    assert_eq!(
        workspace.get("block").map(|b| b.id()),
        Some("block".to_owned())
    );

    assert_eq!(workspace.block_exists("block"), true);

    assert_eq!(workspace.remove("block"), true);

    assert_eq!(workspace.block_count(), 0);
    assert_eq!(workspace.updated_count(), 0);
    assert!(workspace.get("block").is_none());
    assert_eq!(workspace.block_exists("block"), false);

    workspace.create("test", "test", 0).unwrap();
    let vec = workspace.get_blocks_by_flavour("test");
    assert_eq!(vec.len(), 1);

    let workspace = Workspace::new("test", 123);
    assert_eq!(workspace.client_id(), 123);
}

#[test]
fn create_then_read() {
    let mut w = Workspace::new("w", 7);
    w.with_trx(
        &vec![TrxOp::Create { block_id: "b".to_string(), flavor: "text".to_string() }],
        42,
    )
    .unwrap();
    assert_eq!(w.block_count(), 1);
    assert_eq!(w.get("b").unwrap().flavor(), "text");
    let log = w.get_updated("b").unwrap();
    assert_eq!(log, vec![EditRecord { client_id: 7, timestamp: 42, kind: EditKind::Create }]);
}

#[test]
fn remove_block() {
    let mut w = Workspace::new("w", 7);
    w.create("b", "text", 1).unwrap();
    w.with_trx(&vec![TrxOp::Remove { block_id: "b".to_string() }], 2).unwrap();
    assert_eq!(w.block_count(), 0);
    assert_eq!(w.updated_count(), 0);
    assert!(!w.block_exists("b"));
    assert!(w.get_updated("b").is_none());
    assert_eq!(w.remove("b"), false);
}

#[test]
fn flavour_filter_keeps_creation_order() {
    let mut w = Workspace::new("w", 1);
    w.create("a", "text", 1).unwrap();
    w.create("b", "image", 2).unwrap();
    w.create("c", "text", 3).unwrap();
    let ids: Vec<String> = w.get_blocks_by_flavour("text").iter().map(|b| b.id()).collect();
    assert_eq!(ids, vec!["a".to_string(), "c".to_string()]);
    assert_eq!(w.get_blocks_by_flavour("image").len(), 1);
    assert_eq!(w.get_blocks_by_flavour("video").len(), 0);
}

#[test]
fn set_then_get_last_value_wins() {
    let mut w = Workspace::new("w", 5);
    w.create("b", "text", 1).unwrap();
    w.set("b", "title", "one", 2).unwrap();
    w.set("b", "body", "x", 3).unwrap();
    w.set("b", "title", "two", 4).unwrap();
    let b = w.get("b").unwrap();
    assert_eq!(b.get("title"), Some("two".to_string()));
    assert_eq!(b.get("body"), Some("x".to_string()));
    assert_eq!(b.get("missing"), None);
    assert_eq!(b.attrs.len(), 2);
    let log = w.get_updated("b").unwrap();
    assert_eq!(log.len(), 4);
    assert_eq!(log[3], EditRecord { client_id: 5, timestamp: 4, kind: EditKind::Update });
}

#[test]
fn flavour_is_immutable() {
    let mut w = Workspace::new("w", 1);
    w.create("b", "text", 1).unwrap();
    assert_eq!(w.set("b", "flavor", "image", 2), Err(WorkspaceError::Immutable));
    assert_eq!(w.get("b").unwrap().flavor(), "text");
    assert_eq!(w.get_updated("b").unwrap().len(), 1);
}

#[test]
fn errors_for_missing_and_duplicate_blocks() {
    let mut w = Workspace::new("w", 1);
    assert_eq!(w.set("nope", "k", "v", 1), Err(WorkspaceError::NotFound));
    w.create("b", "text", 1).unwrap();
    assert!(matches!(w.create("b", "image", 2), Err(WorkspaceError::AlreadyExists)));
    assert_eq!(w.block_count(), 1);
    assert_eq!(w.get("b").unwrap().flavor(), "text");
}

#[test]
fn failed_transaction_changes_nothing() {
    let mut w = Workspace::new("w", 1);
    w.create("a", "text", 1).unwrap();
    let ops = vec![
        TrxOp::Create { block_id: "b".to_string(), flavor: "text".to_string() },
        TrxOp::SetAttr { block_id: "a".to_string(), key: "k".to_string(), value: "v".to_string() },
        TrxOp::Create { block_id: "a".to_string(), flavor: "image".to_string() },
    ];
    assert_eq!(w.with_trx(&ops, 9), Err(WorkspaceError::AlreadyExists));
    assert_eq!(w.block_count(), 1);
    assert!(!w.block_exists("b"));
    assert_eq!(w.get("a").unwrap().get("k"), None);
    assert_eq!(w.get_updated("a").unwrap().len(), 1);
}

#[test]
fn successful_transaction_applies_all() {
    let mut w = Workspace::new("w", 3);
    let ops = vec![
        TrxOp::Create { block_id: "a".to_string(), flavor: "text".to_string() },
        TrxOp::SetAttr { block_id: "a".to_string(), key: "k".to_string(), value: "v".to_string() },
        TrxOp::Create { block_id: "b".to_string(), flavor: "image".to_string() },
        TrxOp::Remove { block_id: "b".to_string() },
    ];
    assert_eq!(w.with_trx(&ops, 9), Ok(()));
    assert_eq!(w.block_count(), 1);
    assert_eq!(w.get("a").unwrap().get("k"), Some("v".to_string()));
    assert_eq!(w.get_updated("a").unwrap().len(), 2);
    assert!(!w.block_exists("b"));
}

#[test]
fn duplicate_is_independent() {
    let mut w = Workspace::new("w", 3);
    w.create("a", "text", 1).unwrap();
    let mut copy = w.duplicate();
    copy.create("b", "text", 2).unwrap();
    assert_eq!(w.block_count(), 1);
    assert_eq!(copy.block_count(), 2);
    assert_eq!(copy.id(), "w");
    assert_eq!(copy.client_id(), 3);
}

#[test]
fn indexed_search() {
    let mut w = Workspace::new("w", 1);
    w.create("first", "text", 1).unwrap();
    w.set("first", "text", "hello world", 2).unwrap();
    w.create("second", "text", 3).unwrap();
    w.set("second", "text", "hello there", 4).unwrap();
    assert_eq!(w.search("hello"), vec!["first".to_string(), "second".to_string()]);
    assert_eq!(w.search("world"), vec!["first".to_string()]);
    assert_eq!(w.search("wor"), Vec::<String>::new());
    assert_eq!(w.search(""), Vec::<String>::new());
    assert_eq!(w.search("Hello"), vec!["first".to_string(), "second".to_string()]);
    assert_eq!(w.search("hello world"), vec!["first".to_string()]);
    assert_eq!(w.search("world there"), Vec::<String>::new());
}

#[test]
fn search_sees_later_changes() {
    let mut w = Workspace::new("w", 1);
    w.create("a", "text", 1).unwrap();
    w.set("a", "text", "alpha", 2).unwrap();
    assert_eq!(w.search("alpha"), vec!["a".to_string()]);
    w.remove("a");
    assert_eq!(w.search("alpha"), Vec::<String>::new());
    w.create("b", "text", 3).unwrap();
    w.set("b", "text", "beta alpha", 4).unwrap();
    assert_eq!(w.search("alpha"), vec!["b".to_string()]);
}

#[test]
fn search_result_is_a_json_array() {
    let mut w = Workspace::new("w", 1);
    w.create("first", "text", 1).unwrap();
    w.set("first", "text", "hello world", 2).unwrap();
    assert_eq!(w.search_result("hello"), "[\"first\"]");
    assert_eq!(w.search_result("nothing"), "[]");
}

#[test]
fn try_with_trx_runs_the_transaction() {
    let mut w = Workspace::new("w", 1);
    let ops = vec![TrxOp::Create { block_id: "a".to_string(), flavor: "text".to_string() }];
    assert_eq!(w.try_with_trx(&ops, 1), Some(Ok(())));
    assert_eq!(w.try_with_trx(&ops, 2), Some(Err(WorkspaceError::AlreadyExists)));
    assert_eq!(w.block_count(), 1);
}

#[test]
fn search_tokens_ignore_case_and_punctuation() {
    let mut w = Workspace::new("w", 1);
    w.create("a", "text", 1).unwrap();
    w.set("a", "text", "Ünïcode, WORDS!", 2).unwrap();
    assert_eq!(w.search("words"), vec!["a".to_string()]);
    assert_eq!(w.search("ünïcode"), vec!["a".to_string()]);
    assert_eq!(w.search("!!"), Vec::<String>::new());
}

#[test]
fn blocks_lists_each_block_with_its_log() {
    let mut w = Workspace::new("w", 4);
    w.create("a", "text", 1).unwrap();
    w.create("b", "image", 2).unwrap();
    w.set("b", "k", "v", 3).unwrap();
    let all = w.blocks();
    assert_eq!(all.len(), 2);
    assert_eq!(all[0].0.id(), "a");
    assert_eq!(all[0].1.len(), 1);
    assert_eq!(all[1].0.id(), "b");
    assert_eq!(all[1].1, vec![
        EditRecord { client_id: 4, timestamp: 2, kind: EditKind::Create },
        EditRecord { client_id: 4, timestamp: 3, kind: EditKind::Update },
    ]);
}

#[test]
fn search_orders_by_id() {
    let mut w = Workspace::new("w", 1);
    w.create("b", "text", 1).unwrap();
    w.set("b", "text", "hello", 2).unwrap();
    w.create("a", "text", 3).unwrap();
    w.set("a", "text", "hello", 4).unwrap();
    assert_eq!(w.search("hello"), vec!["a".to_string(), "b".to_string()]);
    assert_eq!(w.search_result("hello"), "[\"a\",\"b\"]");
}

#[test]
fn doc_load_test() {
    let mut workspace = Workspace::new("test", 1);
    workspace.create("test", "text", 5).unwrap();
    workspace.set("test", "test", "test", 6).unwrap();
    let json = workspace.to_json();
    assert_eq!(
        json,
        "{\"blocks\":{\"test\":{\"flavor\":\"text\",\"test\":\"test\"}},\"updated\":{\"test\":[[1,5,\"create\"],[1,6,\"update\"]]}}"
    );
    assert_eq!(workspace.duplicate().to_json(), json);
}

#[test]
fn json_view_after_remove_is_empty() {
    let mut w = Workspace::new("w", 1);
    w.create("b", "text", 1).unwrap();
    assert_eq!(
        w.to_json(),
        "{\"blocks\":{\"b\":{\"flavor\":\"text\"}},\"updated\":{\"b\":[[1,1,\"create\"]]}}"
    );
    w.remove("b");
    assert_eq!(w.to_json(), "{\"blocks\":{},\"updated\":{}}");
}

#[test]
fn json_view_escapes_strings() {
    let mut w = Workspace::new("w", 1);
    w.create("a\"b", "text", 1).unwrap();
    w.create("c", "image", 2).unwrap();
    assert_eq!(
        w.to_json(),
        "{\"blocks\":{\"a\\\"b\":{\"flavor\":\"text\"},\"c\":{\"flavor\":\"image\"}},\"updated\":{\"a\\\"b\":[[1,1,\"create\"]],\"c\":[[1,2,\"create\"]]}}"
    );
}

#[test]
fn search_without_indexing_plugin() {
    let mut w = Workspace::with_indexing("w", 1, false);
    w.create("a", "text", 1).unwrap();
    w.set("a", "text", "Hello", 2).unwrap();
    assert_eq!(w.search("hello"), vec!["a".to_string()]);
}
