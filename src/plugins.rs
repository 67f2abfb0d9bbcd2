//! Plugins attached to a workspace. The set of plugins is closed: the one
//! plugin is the indexing plugin, which keeps a snapshot of the blocks that it
//! refreshes lazily, just before it is queried, when the workspace changed.

use vstd::prelude::*;
use crate::block::{Block, BlockModel};
use crate::search::{matching_ids, search_blocks};

verus! {

/// Why a plugin-map operation was refused.
#[derive(Clone, Copy, Debug, PartialEq, Eq, Structural)]
pub enum PluginError {
    /// The plugin is installed already.
    AlreadyInstalled,
    /// No such plugin is installed.
    NotFound,
}

/// The indexing plugin: the blocks as of its last update, and whether the
/// workspace changed since.
pub struct IndexingPlugin {
    snapshot: Vec<Block>,
    dirty: bool,
}

impl IndexingPlugin {
    pub closed spec fn spec_snapshot(&self) -> Seq<BlockModel> {
        self.snapshot@.map_values(|b: Block| b@)
    }

    pub closed spec fn spec_dirty(&self) -> bool {
        self.dirty
    }

    /// A plugin that has seen nothing yet, so it is due for an update.
    pub fn new() -> (r: IndexingPlugin)
        ensures
            r.spec_dirty(),
            r.spec_snapshot().len() == 0,
    {
        let r = IndexingPlugin { snapshot: Vec::new(), dirty: true };
        assert(r.spec_snapshot().len() == 0);
        r
    }

    pub fn is_dirty(&self) -> (r: bool)
        ensures
            r == self.spec_dirty(),
    {
        self.dirty
    }

    /// Records that the workspace changed.
    pub fn mark_dirty(&mut self)
        ensures
            final(self).spec_dirty(),
            final(self).spec_snapshot() == old(self).spec_snapshot(),
    {
        self.dirty = true;
    }

    /// Takes a fresh snapshot of the blocks.
    pub fn on_update(&mut self, blocks: &Vec<Block>)
        ensures
            !final(self).spec_dirty(),
            final(self).spec_snapshot() == blocks@.map_values(|b: Block| b@),
    {
        let mut snapshot: Vec<Block> = Vec::new();
        let mut i: usize = 0;
        while i < blocks.len()
            invariant
                i <= blocks@.len(),
                snapshot@.len() == i,
                forall|j: int| 0 <= j < i ==> (#[trigger] snapshot@[j])@ == blocks@[j]@,
            decreases blocks@.len() - i,
        {
            snapshot.push(blocks[i].duplicate());
            i = i + 1;
        }
        self.snapshot = snapshot;
        self.dirty = false;
        assert(self.spec_snapshot() =~= blocks@.map_values(|b: Block| b@));
    }

    /// The ids of the snapshot's blocks, in order, that have the word.
    pub fn search(&self, word: &str) -> (r: Vec<String>)
        ensures
            r@.map_values(|s: String| s@) == matching_ids(self.spec_snapshot(), word@),
    {
        search_blocks(&self.snapshot, word)
    }
}

/// The plugins of one workspace handle, each installed at most once.
pub struct WorkspacePluginMap {
    indexing: Option<IndexingPlugin>,
}

impl WorkspacePluginMap {
    pub closed spec fn spec_indexing(&self) -> Option<IndexingPlugin> {
        self.indexing
    }

    /// A map with no plugin installed.
    pub fn new() -> (r: WorkspacePluginMap)
        ensures
            r.spec_indexing() is None,
    {
        WorkspacePluginMap { indexing: None }
    }

    /// Installs the plugin; refused when one is installed already.
    pub fn insert_plugin(&mut self, plugin: IndexingPlugin) -> (r: Result<(), PluginError>)
        ensures
            old(self).spec_indexing() is Some ==> r == Err::<(), PluginError>(PluginError::AlreadyInstalled)
                && final(self).spec_indexing() == old(self).spec_indexing(),
            old(self).spec_indexing() is None ==> r is Ok && final(self).spec_indexing() == Some(plugin),
    {
        if self.indexing.is_some() {
            return Err(PluginError::AlreadyInstalled);
        }
        self.indexing = Some(plugin);
        Ok(())
    }

    /// The installed plugin, if any.
    pub fn get_plugin(&self) -> (r: Option<&IndexingPlugin>)
        ensures
            r matches Some(p) ==> self.spec_indexing() == Some(*p),
            r is None ==> self.spec_indexing() is None,
    {
        match &self.indexing {
            Some(p) => Some(p),
            None => None,
        }
    }

    /// Runs the plugin's update on the blocks; refused when it is not installed.
    pub fn update_plugin(&mut self, blocks: &Vec<Block>) -> (r: Result<(), PluginError>)
        ensures
            old(self).spec_indexing() is None ==> r == Err::<(), PluginError>(PluginError::NotFound)
                && final(self).spec_indexing() is None,
            old(self).spec_indexing() is Some ==> r is Ok && (final(self).spec_indexing() matches Some(p)
                && !p.spec_dirty() && p.spec_snapshot() == blocks@.map_values(|b: Block| b@)),
    {
        match self.indexing.take() {
            Some(mut p) => {
                p.on_update(blocks);
                self.indexing = Some(p);
                Ok(())
            },
            None => Err(PluginError::NotFound),
        }
    }

    /// Tells the installed plugin, if any, that the workspace changed.
    pub fn mark_dirty(&mut self)
        ensures
            old(self).spec_indexing() is None ==> final(self).spec_indexing() is None,
            old(self).spec_indexing() matches Some(p) ==> (final(self).spec_indexing() matches Some(q)
                && q.spec_dirty() && q.spec_snapshot() == p.spec_snapshot()),
    {
        match self.indexing.take() {
            Some(mut p) => {
                p.mark_dirty();
                self.indexing = Some(p);
            },
            None => {},
        }
    }
}

} // verus!
