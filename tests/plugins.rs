use jwst::api::{default_limit, Pagination};
use jwst::block::Block;
use jwst::plugins::{IndexingPlugin, PluginError, WorkspacePluginMap};

#[test]
fn plugin_installed_once() {
    let mut map = WorkspacePluginMap::new();
    assert!(map.get_plugin().is_none());
    assert_eq!(map.update_plugin(&Vec::new()), Err(PluginError::NotFound));
    assert_eq!(map.insert_plugin(IndexingPlugin::new()), Ok(()));
    assert_eq!(map.insert_plugin(IndexingPlugin::new()), Err(PluginError::AlreadyInstalled));
    assert!(map.get_plugin().unwrap().is_dirty());
}

#[test]
fn plugin_update_clears_dirty_flag() {
    let mut map = WorkspacePluginMap::new();
    map.insert_plugin(IndexingPlugin::new()).unwrap();
    let mut b = Block::new("x", "text");
    b.attrs.push(jwst::block::Attr { key: "t".to_string(), value: "find me".to_string() });
    assert_eq!(map.update_plugin(&vec![b]), Ok(()));
    let p = map.get_plugin().unwrap();
    assert!(!p.is_dirty());
    assert_eq!(p.search("me"), vec!["x".to_string()]);
    map.mark_dirty();
    assert!(map.get_plugin().unwrap().is_dirty());
}

#[test]
fn pagination_defaults() {
    assert_eq!(default_limit(), usize::MAX);
    let p = Pagination::new(None, None);
    assert_eq!(p, Pagination { offset: 0, limit: usize::MAX });
    let p = Pagination::new(Some(3), Some(10));
    assert_eq!(p, Pagination { offset: 3, limit: 10 });
}
