//! The workspace: blocks keyed by id, a parallel edit log per block, and the
//! transactional operations over them.

use vstd::prelude::*;
use crate::block::{
    attr_write, attrs_unique, flavor_key, is_flavor_key, Block, BlockModel, EditKind, EditRecord,
};
use crate::plugins::{IndexingPlugin, WorkspacePluginMap};
use crate::search::{ids_ascending, lemma_matching_ids_distinct, matching_ids, sort_ids};
use crate::text::{owned, str_eq};

verus! {

/// Why a workspace operation was refused.
#[derive(Clone, Copy, Debug, PartialEq, Eq, Structural)]
pub enum WorkspaceError {
    /// No block carries the given id.
    NotFound,
    /// A block with the given id is already there.
    AlreadyExists,
    /// The attribute is written once, at creation.
    Immutable,
}

/// The edit log kept for one block.
#[derive(Debug)]
pub struct UpdatedLog {
    pub id: String,
    pub records: Vec<EditRecord>,
}

/// The mathematical value of a workspace: the `blocks` map and the `updated`
/// map, each as a sequence in creation order.
pub ghost struct WorkspaceModel {
    pub blocks: Seq<BlockModel>,
    pub updated: Seq<(Seq<char>, Seq<EditRecord>)>,
}

/// One mutation inside a transaction.
#[derive(Debug)]
pub enum TrxOp {
    Create { block_id: String, flavor: String },
    SetAttr { block_id: String, key: String, value: String },
    Remove { block_id: String },
}

pub struct Workspace {
    id: String,
    client_id: u64,
    blocks: Vec<Block>,
    updated: Vec<UpdatedLog>,
    plugins: WorkspacePluginMap,
}

/// What `serde_json::to_string` returns for a list of strings: a JSON array.
pub uninterp spec fn json_string_array(items: Seq<Seq<char>>) -> Seq<char>;

/// Relies on serde_json::to_string: a list of strings as a JSON array of
/// strings; serialising strings does not fail.
#[verifier::external_body]
fn to_json_array(items: &Vec<String>) -> (r: String)
    ensures
        r@ == json_string_array(items@.map_values(|s: String| s@)),
{
    serde_json::to_string(items).unwrap_or_default()
}

/// `blocks` holds a block with this id.
pub open spec fn has_block(m: WorkspaceModel, id: Seq<char>) -> bool {
    exists|i: int| 0 <= i < m.blocks.len() && m.blocks[i].id == id
}

/// `updated` holds a log with this id.
pub open spec fn has_log(m: WorkspaceModel, id: Seq<char>) -> bool {
    exists|i: int| 0 <= i < m.updated.len() && m.updated[i].0 == id
}

/// The position of the block with this id.
pub open spec fn block_index(m: WorkspaceModel, id: Seq<char>) -> int {
    choose|i: int| 0 <= i < m.blocks.len() && m.blocks[i].id == id
}

/// The block with this id, if any.
pub open spec fn model_get(m: WorkspaceModel, id: Seq<char>) -> Option<BlockModel> {
    if has_block(m, id) {
        Some(m.blocks[block_index(m, id)])
    } else {
        None
    }
}

/// The edit log of the block with this id, if any.
pub open spec fn model_log(m: WorkspaceModel, id: Seq<char>) -> Option<Seq<EditRecord>> {
    if has_block(m, id) {
        Some(m.updated[block_index(m, id)].1)
    } else {
        None
    }
}

/// The blocks whose flavour is `flavor`, in creation order.
pub open spec fn model_by_flavor(m: WorkspaceModel, flavor: Seq<char>) -> Seq<BlockModel> {
    m.blocks.filter(|b: BlockModel| b.flavor == flavor)
}

/// Every block has a log under the same id at the same position; ids are
/// distinct; attribute keys of each block are distinct.
pub open spec fn model_wf(m: WorkspaceModel) -> bool {
    &&& m.blocks.len() == m.updated.len()
    &&& forall|i: int| 0 <= i < m.blocks.len() ==> #[trigger] m.blocks[i].id == m.updated[i].0
    &&& forall|i: int, j: int| 0 <= i < j < m.blocks.len() ==> m.blocks[i].id != m.blocks[j].id
    &&& forall|i: int| 0 <= i < m.blocks.len() ==> attrs_unique(#[trigger] m.blocks[i].attrs)
}

/// Creating a block: refused when the id is taken; otherwise the block is
/// appended with its flavour and no attributes, and its log holds `rec`.
pub open spec fn model_create(m: WorkspaceModel, id: Seq<char>, flavor: Seq<char>, rec: EditRecord) -> Result<WorkspaceModel, WorkspaceError> {
    if has_block(m, id) {
        Err(WorkspaceError::AlreadyExists)
    } else {
        Ok(WorkspaceModel {
            blocks: m.blocks.push(BlockModel { id, flavor, attrs: Seq::empty() }),
            updated: m.updated.push((id, seq![rec])),
        })
    }
}

/// Writing an attribute: refused for a missing block and for the flavour;
/// otherwise the attribute is written and `rec` is appended to the log.
pub open spec fn model_set(m: WorkspaceModel, id: Seq<char>, key: Seq<char>, value: Seq<char>, rec: EditRecord) -> Result<WorkspaceModel, WorkspaceError> {
    if !has_block(m, id) {
        Err(WorkspaceError::NotFound)
    } else if key == flavor_key() {
        Err(WorkspaceError::Immutable)
    } else {
        let i = block_index(m, id);
        let b = m.blocks[i];
        Ok(WorkspaceModel {
            blocks: m.blocks.update(i, BlockModel { id: b.id, flavor: b.flavor, attrs: attr_write(b.attrs, key, value) }),
            updated: m.updated.update(i, (m.updated[i].0, m.updated[i].1.push(rec))),
        })
    }
}

/// Removing a block takes it out of both maps; an absent id changes nothing.
pub open spec fn model_remove(m: WorkspaceModel, id: Seq<char>) -> WorkspaceModel {
    if has_block(m, id) {
        let i = block_index(m, id);
        WorkspaceModel { blocks: m.blocks.remove(i), updated: m.updated.remove(i) }
    } else {
        m
    }
}

/// One operation of a transaction, made by `client` at `ts`.
pub open spec fn model_step(m: WorkspaceModel, op: TrxOp, client: u64, ts: u64) -> Result<WorkspaceModel, WorkspaceError> {
    match op {
        TrxOp::Create { block_id, flavor } =>
            model_create(m, block_id@, flavor@, EditRecord { client_id: client, timestamp: ts, kind: EditKind::Create }),
        TrxOp::SetAttr { block_id, key, value } =>
            model_set(m, block_id@, key@, value@, EditRecord { client_id: client, timestamp: ts, kind: EditKind::Update }),
        TrxOp::Remove { block_id } => Ok(model_remove(m, block_id@)),
    }
}

/// A sequence of operations, applied in order, stopping at the first refusal.
pub open spec fn model_apply(m: WorkspaceModel, ops: Seq<TrxOp>, client: u64, ts: u64) -> Result<WorkspaceModel, WorkspaceError>
    decreases ops.len(),
{
    if ops.len() == 0 {
        Ok(m)
    } else {
        match model_apply(m, ops.drop_last(), client, ts) {
            Ok(m2) => model_step(m2, ops.last(), client, ts),
            Err(e) => Err(e),
        }
    }
}

pub proof fn lemma_index_of(m: WorkspaceModel, i: int)
    requires
        model_wf(m),
        0 <= i < m.blocks.len(),
    ensures
        has_block(m, m.blocks[i].id),
        block_index(m, m.blocks[i].id) == i,
{
    let c = block_index(m, m.blocks[i].id);
    assert(c == i) by {
        if c < i {} else if c > i {}
    }
}

pub proof fn lemma_create_wf(m: WorkspaceModel, id: Seq<char>, flavor: Seq<char>, rec: EditRecord)
    requires
        model_wf(m),
    ensures
        model_create(m, id, flavor, rec) matches Ok(m2) ==> model_wf(m2),
{
    if !has_block(m, id) {
        let m2 = model_create(m, id, flavor, rec)->Ok_0;
        assert(m2.blocks.last().attrs =~= Seq::<(Seq<char>, Seq<char>)>::empty());
        assert(model_wf(m2));
    }
}

pub proof fn lemma_set_wf(m: WorkspaceModel, id: Seq<char>, key: Seq<char>, value: Seq<char>, rec: EditRecord)
    requires
        model_wf(m),
    ensures
        model_set(m, id, key, value, rec) matches Ok(m2) ==> model_wf(m2),
{
    if has_block(m, id) && key != flavor_key() {
        let i = block_index(m, id);
        crate::block::lemma_write_then_lookup(m.blocks[i].attrs, key, value);
        let m2 = model_set(m, id, key, value, rec)->Ok_0;
        assert(model_wf(m2));
    }
}

pub proof fn lemma_remove_wf(m: WorkspaceModel, id: Seq<char>)
    requires
        model_wf(m),
    ensures
        model_wf(model_remove(m, id)),
{
    if has_block(m, id) {
        let i = block_index(m, id);
        let m2 = model_remove(m, id);
        assert forall|a: int, b: int| 0 <= a < b < m2.blocks.len() implies m2.blocks[a].id != m2.blocks[b].id by {
            let a0 = if a < i { a } else { a + 1 };
            let b0 = if b < i { b } else { b + 1 };
            assert(m2.blocks[a] == m.blocks[a0]);
            assert(m2.blocks[b] == m.blocks[b0]);
        }
        assert forall|a: int| 0 <= a < m2.blocks.len() implies #[trigger] m2.blocks[a].id == m2.updated[a].0 by {
            let a0 = if a < i { a } else { a + 1 };
            assert(m2.blocks[a] == m.blocks[a0]);
            assert(m2.updated[a] == m.updated[a0]);
        }
        assert forall|a: int| 0 <= a < m2.blocks.len() implies attrs_unique(#[trigger] m2.blocks[a].attrs) by {
            let a0 = if a < i { a } else { a + 1 };
            assert(m2.blocks[a] == m.blocks[a0]);
        }
    }
}

pub proof fn lemma_step_wf(m: WorkspaceModel, op: TrxOp, client: u64, ts: u64)
    requires
        model_wf(m),
    ensures
        model_step(m, op, client, ts) matches Ok(m2) ==> model_wf(m2),
{
    match op {
        TrxOp::Create { block_id, flavor } =>
            lemma_create_wf(m, block_id@, flavor@, EditRecord { client_id: client, timestamp: ts, kind: EditKind::Create }),
        TrxOp::SetAttr { block_id, key, value } =>
            lemma_set_wf(m, block_id@, key@, value@, EditRecord { client_id: client, timestamp: ts, kind: EditKind::Update }),
        TrxOp::Remove { block_id } => lemma_remove_wf(m, block_id@),
    }
}

/// Once a prefix of the operations is refused, the whole sequence is refused
/// with the same error.
pub proof fn lemma_apply_stops(m: WorkspaceModel, ops: Seq<TrxOp>, i: int, client: u64, ts: u64)
    requires
        0 <= i < ops.len(),
        model_apply(m, ops.subrange(0, i + 1), client, ts) is Err,
    ensures
        model_apply(m, ops, client, ts) == model_apply(m, ops.subrange(0, i + 1), client, ts),
    decreases ops.len(),
{
    if i + 1 < ops.len() {
        assert(ops.drop_last().subrange(0, i + 1) =~= ops.subrange(0, i + 1));
        lemma_apply_stops(m, ops.drop_last(), i, client, ts);
    } else {
        assert(ops.subrange(0, i + 1) =~= ops);
    }
}

/// In every well-formed state, a block id is a key of `blocks` exactly when it
/// is a key of `updated`.
pub proof fn law_blocks_match_updated(m: WorkspaceModel, id: Seq<char>)
    requires
        model_wf(m),
    ensures
        has_block(m, id) <==> has_log(m, id),
{
    if has_block(m, id) {
        let i = block_index(m, id);
        assert(m.blocks[i].id == m.updated[i].0);
    }
    if has_log(m, id) {
        let i = choose|i: int| 0 <= i < m.updated.len() && m.updated[i].0 == id;
        assert(m.blocks[i].id == m.updated[i].0);
    }
}

/// After a successful write of `value` under `key`, reading `key` of that block
/// gives `value`, and the block's log has grown by exactly the write's record.
pub proof fn law_set_then_get(m: WorkspaceModel, id: Seq<char>, key: Seq<char>, value: Seq<char>, rec: EditRecord)
    requires
        model_wf(m),
        model_set(m, id, key, value, rec) is Ok,
    ensures
        ({
            let m2 = model_set(m, id, key, value, rec)->Ok_0;
            &&& model_get(m2, id) matches Some(b) && crate::block::attr_lookup(b.attrs, key) == Some(value)
            &&& model_log(m2, id) == Some(model_log(m, id)->Some_0.push(rec))
        }),
{
    let i = block_index(m, id);
    lemma_set_wf(m, id, key, value, rec);
    crate::block::lemma_write_then_lookup(m.blocks[i].attrs, key, value);
    let m2 = model_set(m, id, key, value, rec)->Ok_0;
    lemma_index_of(m2, i);
}

/// A later successful write to another key, or to another block, leaves what
/// `key` of block `id` reads unchanged; with the law above, after a sequence
/// of writes the last value written under a key is the one read.
pub proof fn law_set_keeps_other_keys(m: WorkspaceModel, id: Seq<char>, key: Seq<char>, id2: Seq<char>, key2: Seq<char>, value2: Seq<char>, rec: EditRecord)
    requires
        model_wf(m),
        has_block(m, id),
        id2 != id || key2 != key,
        model_set(m, id2, key2, value2, rec) is Ok,
    ensures
        model_get(model_set(m, id2, key2, value2, rec)->Ok_0, id) matches Some(b)
            && crate::block::attr_lookup(b.attrs, key) == crate::block::attr_lookup(model_get(m, id)->Some_0.attrs, key),
{
    let i = block_index(m, id);
    let i2 = block_index(m, id2);
    lemma_set_wf(m, id2, key2, value2, rec);
    let m2 = model_set(m, id2, key2, value2, rec)->Ok_0;
    lemma_index_of(m2, i);
    if i == i2 {
        crate::block::lemma_write_other(m.blocks[i].attrs, key2, value2, key);
    }
}

/// A block's flavour is never rewritten: a write to the flavour key of an
/// existing block is refused as immutable, and any other write keeps it.
pub proof fn law_flavor_immutable(m: WorkspaceModel, id: Seq<char>, key: Seq<char>, value: Seq<char>, rec: EditRecord)
    requires
        model_wf(m),
        has_block(m, id),
    ensures
        model_set(m, id, flavor_key(), value, rec) == Err::<WorkspaceModel, WorkspaceError>(WorkspaceError::Immutable),
        model_set(m, id, key, value, rec) matches Ok(m2) ==> model_get(m2, id)->Some_0.flavor == model_get(m, id)->Some_0.flavor,
{
    if model_set(m, id, key, value, rec) is Ok {
        let i = block_index(m, id);
        lemma_set_wf(m, id, key, value, rec);
        let m2 = model_set(m, id, key, value, rec)->Ok_0;
        lemma_index_of(m2, i);
    }
}

/// The operation does not remove the block `id`.
pub open spec fn keeps_block(op: TrxOp, id: Seq<char>) -> bool {
    match op {
        TrxOp::Remove { block_id } => block_id@ != id,
        _ => true,
    }
}

proof fn lemma_step_keeps_flavor(m: WorkspaceModel, op: TrxOp, client: u64, ts: u64, id: Seq<char>)
    requires
        model_wf(m),
        has_block(m, id),
        keeps_block(op, id),
        model_step(m, op, client, ts) is Ok,
    ensures
        has_block(model_step(m, op, client, ts)->Ok_0, id),
        model_get(model_step(m, op, client, ts)->Ok_0, id)->Some_0.flavor == model_get(m, id)->Some_0.flavor,
{
    let m2 = model_step(m, op, client, ts)->Ok_0;
    lemma_step_wf(m, op, client, ts);
    let i = block_index(m, id);
    match op {
        TrxOp::Create { block_id, flavor } => {
            lemma_index_of(m2, i);
        },
        TrxOp::SetAttr { block_id, key, value } => {
            lemma_index_of(m2, i);
        },
        TrxOp::Remove { block_id } => {
            if has_block(m, block_id@) {
                let k = block_index(m, block_id@);
                assert(k != i);
                let i2 = if i < k { i } else { i - 1 };
                assert(m2.blocks[i2] == m.blocks[i]);
                lemma_index_of(m2, i2);
            }
        },
    }
}

/// A block's flavour stays what it was created with across every transaction
/// that succeeds and does not remove the block: the block is still there, with
/// the same flavour.
pub proof fn law_flavor_fixed_across_transactions(m: WorkspaceModel, ops: Seq<TrxOp>, client: u64, ts: u64, id: Seq<char>)
    requires
        model_wf(m),
        has_block(m, id),
        forall|k: int| 0 <= k < ops.len() ==> keeps_block(#[trigger] ops[k], id),
        model_apply(m, ops, client, ts) is Ok,
    ensures
        has_block(model_apply(m, ops, client, ts)->Ok_0, id),
        model_get(model_apply(m, ops, client, ts)->Ok_0, id)->Some_0.flavor == model_get(m, id)->Some_0.flavor,
        model_wf(model_apply(m, ops, client, ts)->Ok_0),
    decreases ops.len(),
{
    if ops.len() > 0 {
        let front = ops.drop_last();
        assert forall|k: int| 0 <= k < front.len() implies keeps_block(#[trigger] front[k], id) by {
            assert(front[k] == ops[k]);
        }
        law_flavor_fixed_across_transactions(m, front, client, ts, id);
        let m1 = model_apply(m, front, client, ts)->Ok_0;
        assert(keeps_block(ops[ops.len() - 1], id));
        lemma_step_keeps_flavor(m1, ops.last(), client, ts, id);
        lemma_step_wf(m1, ops.last(), client, ts);
    }
}

impl UpdatedLog {
    pub open spec fn view(&self) -> (Seq<char>, Seq<EditRecord>) {
        (self.id@, self.records@)
    }

    pub fn duplicate(&self) -> (r: UpdatedLog)
        ensures
            r@ == self@,
    {
        let mut records: Vec<EditRecord> = Vec::new();
        let mut i: usize = 0;
        while i < self.records.len()
            invariant
                i <= self.records@.len(),
                records@ == self.records@.subrange(0, i as int),
            decreases self.records@.len() - i,
        {
            records.push(self.records[i]);
            assert(records@ =~= self.records@.subrange(0, i + 1));
            i = i + 1;
        }
        assert(records@ =~= self.records@);
        UpdatedLog { id: self.id.clone(), records }
    }
}

impl Workspace {
    pub closed spec fn view(&self) -> WorkspaceModel {
        WorkspaceModel {
            blocks: self.blocks@.map_values(|b: Block| b@),
            updated: self.updated@.map_values(|u: UpdatedLog| u@),
        }
    }

    pub closed spec fn spec_id(&self) -> Seq<char> {
        self.id@
    }

    pub closed spec fn spec_client_id(&self) -> u64 {
        self.client_id
    }

    /// When the indexing plugin is installed and not due for an update, its
    /// snapshot is the current blocks.
    pub closed spec fn index_ok(&self) -> bool {
        match self.plugins.spec_indexing() {
            Some(p) => !p.spec_dirty() ==> p.spec_snapshot() == self@.blocks,
            None => true,
        }
    }

    /// The workspace's invariant.
    pub open spec fn wf(&self) -> bool {
        model_wf(self@) && self.index_ok()
    }

    /// A plugin map with the default plugins installed.
    fn setup_plugins() -> (r: WorkspacePluginMap)
        ensures
            r.spec_indexing() matches Some(p) && p.spec_dirty(),
    {
        let mut plugins = WorkspacePluginMap::new();
        let _ = plugins.insert_plugin(IndexingPlugin::new());
        plugins
    }

    /// An empty workspace named `id` whose edits are attributed to `client_id`.
    pub fn new(id: &str, client_id: u64) -> (r: Workspace)
        ensures
            r.wf(),
            r@.blocks.len() == 0,
            r@.updated.len() == 0,
            r.spec_id() == id@,
            r.spec_client_id() == client_id,
    {
        let r = Workspace { id: owned(id), client_id, blocks: Vec::new(), updated: Vec::new(), plugins: Self::setup_plugins() };
        assert(r@.blocks.len() == 0);
        r
    }

    /// An empty workspace; the indexing plugin is installed only when
    /// `enable_indexing` holds (search then reads the blocks directly).
    pub fn with_indexing(id: &str, client_id: u64, enable_indexing: bool) -> (r: Workspace)
        ensures
            r.wf(),
            r@.blocks.len() == 0,
            r@.updated.len() == 0,
            r.spec_id() == id@,
            r.spec_client_id() == client_id,
            r.indexing_installed() == enable_indexing,
    {
        let plugins = if enable_indexing { Self::setup_plugins() } else { WorkspacePluginMap::new() };
        let r = Workspace { id: owned(id), client_id, blocks: Vec::new(), updated: Vec::new(), plugins };
        assert(r@.blocks.len() == 0);
        r
    }

    pub closed spec fn indexing_installed(&self) -> bool {
        self.plugins.spec_indexing() is Some
    }

    pub fn id(&self) -> (r: String)
        ensures
            r@ == self.spec_id(),
    {
        self.id.clone()
    }

    pub fn client_id(&self) -> (r: u64)
        ensures
            r == self.spec_client_id(),
    {
        self.client_id
    }

    /// The number of blocks.
    pub fn block_count(&self) -> (r: u32)
        requires
            self@.blocks.len() <= u32::MAX,
        ensures
            r == self@.blocks.len(),
    {
        self.blocks.len() as u32
    }

    /// The number of edit logs.
    pub fn updated_count(&self) -> (r: usize)
        ensures
            r == self@.updated.len(),
    {
        self.updated.len()
    }

    fn find(&self, block_id: &str) -> (r: Option<usize>)
        requires
            self.wf(),
        ensures
            r matches Some(i) ==> i < self@.blocks.len() && has_block(self@, block_id@) && block_index(self@, block_id@) == i,
            r is None ==> !has_block(self@, block_id@),
    {
        let mut i: usize = 0;
        while i < self.blocks.len()
            invariant
                i <= self.blocks@.len(),
                self.wf(),
                forall|j: int| 0 <= j < i ==> self@.blocks[j].id != block_id@,
            decreases self.blocks@.len() - i,
        {
            assert(self@.blocks[i as int] == self.blocks@[i as int]@);
            if str_eq(self.blocks[i].id.as_str(), block_id) {
                proof { lemma_index_of(self@, i as int); }
                return Some(i);
            }
            i = i + 1;
        }
        None
    }

    /// Whether a block with this id is in the workspace.
    pub fn block_exists(&self, block_id: &str) -> (r: bool)
        requires
            self.wf(),
        ensures
            r == has_block(self@, block_id@),
    {
        self.find(block_id).is_some()
    }

    /// A snapshot of the block with this id.
    pub fn get(&self, block_id: &str) -> (r: Option<Block>)
        requires
            self.wf(),
        ensures
            r matches Some(b) ==> model_get(self@, block_id@) == Some(b@),
            r is None ==> model_get(self@, block_id@) is None,
    {
        match self.find(block_id) {
            Some(i) => Some(self.blocks[i].duplicate()),
            None => None,
        }
    }

    /// The edit log of the block with this id.
    pub fn get_updated(&self, block_id: &str) -> (r: Option<Vec<EditRecord>>)
        requires
            self.wf(),
        ensures
            r matches Some(v) ==> model_log(self@, block_id@) == Some(v@),
            r is None ==> model_log(self@, block_id@) is None,
    {
        match self.find(block_id) {
            Some(i) => Some(self.updated[i].duplicate().records),
            None => None,
        }
    }

    /// Every block with its edit log, in creation order; each id comes once.
    pub fn blocks(&self) -> (r: Vec<(Block, Vec<EditRecord>)>)
        requires
            self.wf(),
        ensures
            r@.len() == self@.blocks.len(),
            forall|i: int| 0 <= i < r@.len() ==> (#[trigger] r@[i]).0@ == self@.blocks[i] && r@[i].1@ == self@.updated[i].1,
    {
        let mut r: Vec<(Block, Vec<EditRecord>)> = Vec::new();
        let mut i: usize = 0;
        while i < self.blocks.len()
            invariant
                i <= self.blocks@.len(),
                self.wf(),
                r@.len() == i,
                forall|j: int| 0 <= j < i ==> (#[trigger] r@[j]).0@ == self@.blocks[j] && r@[j].1@ == self@.updated[j].1,
            decreases self.blocks@.len() - i,
        {
            assert(self@.blocks[i as int] == self.blocks@[i as int]@);
            assert(self@.updated[i as int] == self.updated@[i as int]@);
            let b = self.blocks[i].duplicate();
            let log = self.updated[i].duplicate();
            r.push((b, log.records));
            i = i + 1;
        }
        r
    }

    /// Snapshots of the blocks of one flavour, in creation order.
    pub fn get_blocks_by_flavour(&self, flavour: &str) -> (r: Vec<Block>)
        ensures
            r@.map_values(|b: Block| b@) == model_by_flavor(self@, flavour@),
    {
        let ghost pred = |b: BlockModel| b.flavor == flavour@;
        let ghost all = self@.blocks;
        let mut r: Vec<Block> = Vec::new();
        let mut i: usize = 0;
        while i < self.blocks.len()
            invariant
                i <= self.blocks@.len(),
                all == self@.blocks,
                all.len() == self.blocks@.len(),
                pred == (|b: BlockModel| b.flavor == flavour@),
                r@.map_values(|b: Block| b@) == all.subrange(0, i as int).filter(pred),
            decreases self.blocks@.len() - i,
        {
            let ghost before = r@.map_values(|b: Block| b@);
            assert(all.subrange(0, i + 1).last() == all[i as int]);
            assert(all.subrange(0, i + 1).drop_last() =~= all.subrange(0, i as int));
            proof { reveal(Seq::filter); }
            assert(all[i as int] == self.blocks@[i as int]@);
            if str_eq(self.blocks[i].flavor.as_str(), flavour) {
                r.push(self.blocks[i].duplicate());
                assert(r@.map_values(|b: Block| b@) =~= before.push(all[i as int]));
            } else {
                assert(r@.map_values(|b: Block| b@) =~= before);
            }
            i = i + 1;
        }
        assert(all.subrange(0, i as int) =~= all);
        r
    }

    /// Creates a block; its log starts with one creation record.
    pub fn create(&mut self, block_id: &str, flavor: &str, timestamp: u64) -> (r: Result<Block, WorkspaceError>)
        requires
            old(self).wf(),
        ensures
            final(self).wf(),
            final(self).spec_id() == old(self).spec_id(),
            final(self).spec_client_id() == old(self).spec_client_id(),
            match model_create(old(self)@, block_id@, flavor@, EditRecord { client_id: old(self).spec_client_id(), timestamp, kind: EditKind::Create }) {
                Ok(m) => r matches Ok(b) && final(self)@ == m && b@ == m.blocks.last(),
                Err(e) => r == Err::<Block, WorkspaceError>(e) && final(self)@ == old(self)@,
            },
    {
        let rec = EditRecord { client_id: self.client_id, timestamp, kind: EditKind::Create };
        proof { lemma_create_wf(self@, block_id@, flavor@, rec); }
        if self.find(block_id).is_some() {
            return Err(WorkspaceError::AlreadyExists);
        }
        let ghost m = self@;
        let block = Block::new(block_id, flavor);
        let snapshot = block.duplicate();
        self.blocks.push(block);
        let mut records: Vec<EditRecord> = Vec::new();
        records.push(rec);
        self.updated.push(UpdatedLog { id: owned(block_id), records });
        assert(self@.blocks =~= m.blocks.push(BlockModel { id: block_id@, flavor: flavor@, attrs: Seq::empty() }));
        assert(self@.updated =~= m.updated.push((block_id@, seq![rec])));
        self.plugins.mark_dirty();
        Ok(snapshot)
    }

    /// Writes an attribute of a block and appends an update record to its log.
    pub fn set(&mut self, block_id: &str, key: &str, value: &str, timestamp: u64) -> (r: Result<(), WorkspaceError>)
        requires
            old(self).wf(),
        ensures
            final(self).wf(),
            final(self).spec_id() == old(self).spec_id(),
            final(self).spec_client_id() == old(self).spec_client_id(),
            match model_set(old(self)@, block_id@, key@, value@, EditRecord { client_id: old(self).spec_client_id(), timestamp, kind: EditKind::Update }) {
                Ok(m) => r is Ok && final(self)@ == m,
                Err(e) => r == Err::<(), WorkspaceError>(e) && final(self)@ == old(self)@,
            },
    {
        let rec = EditRecord { client_id: self.client_id, timestamp, kind: EditKind::Update };
        proof { lemma_set_wf(self@, block_id@, key@, value@, rec); }
        let i = match self.find(block_id) {
            Some(i) => i,
            None => { return Err(WorkspaceError::NotFound); },
        };
        if is_flavor_key(key) {
            return Err(WorkspaceError::Immutable);
        }
        let ghost m = self@;
        let mut block = self.blocks.remove(i);
        block.write_attr(key, value);
        self.blocks.insert(i, block);
        let mut log = self.updated.remove(i);
        log.records.push(rec);
        self.updated.insert(i, log);
        let ghost b = m.blocks[i as int];
        assert(self@.blocks =~= m.blocks.update(i as int, BlockModel { id: b.id, flavor: b.flavor, attrs: attr_write(b.attrs, key@, value@) }));
        assert(self@.updated =~= m.updated.update(i as int, (m.updated[i as int].0, m.updated[i as int].1.push(rec))));
        self.plugins.mark_dirty();
        Ok(())
    }

    /// Removes a block and its log; says whether the block was there.
    pub fn remove(&mut self, block_id: &str) -> (r: bool)
        requires
            old(self).wf(),
        ensures
            final(self).wf(),
            final(self).spec_id() == old(self).spec_id(),
            final(self).spec_client_id() == old(self).spec_client_id(),
            r == has_block(old(self)@, block_id@),
            final(self)@ == model_remove(old(self)@, block_id@),
    {
        proof { lemma_remove_wf(self@, block_id@); }
        match self.find(block_id) {
            Some(i) => {
                let ghost m = self@;
                self.blocks.remove(i);
                self.updated.remove(i);
                assert(self@.blocks =~= m.blocks.remove(i as int));
                assert(self@.updated =~= m.updated.remove(i as int));
                self.plugins.mark_dirty();
                true
            },
            None => false,
        }
    }

    /// Applies one operation of a transaction.
    pub fn apply_op(&mut self, op: &TrxOp, timestamp: u64) -> (r: Result<(), WorkspaceError>)
        requires
            old(self).wf(),
        ensures
            final(self).wf(),
            final(self).spec_id() == old(self).spec_id(),
            final(self).spec_client_id() == old(self).spec_client_id(),
            match model_step(old(self)@, *op, old(self).spec_client_id(), timestamp) {
                Ok(m) => r is Ok && final(self)@ == m,
                Err(e) => r == Err::<(), WorkspaceError>(e) && final(self)@ == old(self)@,
            },
    {
        match op {
            TrxOp::Create { block_id, flavor } => match self.create(block_id.as_str(), flavor.as_str(), timestamp) {
                Ok(_) => Ok(()),
                Err(e) => Err(e),
            },
            TrxOp::SetAttr { block_id, key, value } => self.set(block_id.as_str(), key.as_str(), value.as_str(), timestamp),
            TrxOp::Remove { block_id } => {
                self.remove(block_id.as_str());
                Ok(())
            },
        }
    }

    /// A deep copy: a second, independent workspace with the same contents.
    pub fn duplicate(&self) -> (r: Workspace)
        ensures
            r@ == self@,
            model_wf(self@) ==> r.wf(),
            r.spec_id() == self.spec_id(),
            r.spec_client_id() == self.spec_client_id(),
    {
        let mut blocks: Vec<Block> = Vec::new();
        let mut updated: Vec<UpdatedLog> = Vec::new();
        let mut i: usize = 0;
        while i < self.blocks.len()
            invariant
                i <= self.blocks@.len(),
                blocks@.len() == i,
                forall|j: int| 0 <= j < i ==> (#[trigger] blocks@[j])@ == self.blocks@[j]@,
            decreases self.blocks@.len() - i,
        {
            blocks.push(self.blocks[i].duplicate());
            i = i + 1;
        }
        let mut k: usize = 0;
        while k < self.updated.len()
            invariant
                k <= self.updated@.len(),
                updated@.len() == k,
                forall|j: int| 0 <= j < k ==> (#[trigger] updated@[j])@ == self.updated@[j]@,
            decreases self.updated@.len() - k,
        {
            updated.push(self.updated[k].duplicate());
            k = k + 1;
        }
        let r = Workspace { id: self.id.clone(), client_id: self.client_id, blocks, updated, plugins: Self::setup_plugins() };
        assert(r@.blocks =~= self@.blocks);
        assert(r@.updated =~= self@.updated);
        r
    }

    /// Runs the operations as one transaction stamped `timestamp`: either all
    /// of them take effect, or, at the first refusal, none does and its error
    /// is returned.
    pub fn with_trx(&mut self, ops: &Vec<TrxOp>, timestamp: u64) -> (r: Result<(), WorkspaceError>)
        requires
            old(self).wf(),
        ensures
            final(self).wf(),
            final(self).spec_id() == old(self).spec_id(),
            final(self).spec_client_id() == old(self).spec_client_id(),
            match model_apply(old(self)@, ops@, old(self).spec_client_id(), timestamp) {
                Ok(m) => r is Ok && final(self)@ == m,
                Err(e) => r == Err::<(), WorkspaceError>(e) && final(self)@ == old(self)@,
            },
    {
        let mut work = self.duplicate();
        let mut i: usize = 0;
        while i < ops.len()
            invariant
                i <= ops@.len(),
                work.wf(),
                work.spec_id() == self.spec_id(),
                work.spec_client_id() == self.spec_client_id(),
                self.wf(),
                *self == *old(self),
                model_apply(self@, ops@.subrange(0, i as int), self.spec_client_id(), timestamp) == Ok::<WorkspaceModel, WorkspaceError>(work@),
            decreases ops@.len() - i,
        {
            assert(ops@.subrange(0, i + 1).drop_last() =~= ops@.subrange(0, i as int));
            assert(ops@.subrange(0, i + 1).last() == ops@[i as int]);
            match work.apply_op(&ops[i], timestamp) {
                Ok(()) => {},
                Err(e) => {
                    proof { lemma_apply_stops(self@, ops@, i as int, self.spec_client_id(), timestamp); }
                    return Err(e);
                },
            }
            i = i + 1;
        }
        assert(ops@.subrange(0, i as int) =~= ops@);
        *self = work;
        Ok(())
    }

    /// The non-blocking form of `with_trx`. Holding `&mut self` already
    /// excludes every other writer, so the transaction always runs: the
    /// result is `Some` of what `with_trx` returns.
    pub fn try_with_trx(&mut self, ops: &Vec<TrxOp>, timestamp: u64) -> (r: Option<Result<(), WorkspaceError>>)
        requires
            old(self).wf(),
        ensures
            final(self).wf(),
            final(self).spec_id() == old(self).spec_id(),
            final(self).spec_client_id() == old(self).spec_client_id(),
            match model_apply(old(self)@, ops@, old(self).spec_client_id(), timestamp) {
                Ok(m) => r == Some(Ok::<(), WorkspaceError>(())) && final(self)@ == m,
                Err(e) => r == Some(Err::<(), WorkspaceError>(e)) && final(self)@ == old(self)@,
            },
    {
        match self.with_trx(ops, timestamp) {
            Ok(()) => Some(Ok(())),
            Err(e) => Some(Err(e)),
        }
    }

    /// The ids of the blocks that match `query` (every lowercase token of the
    /// query is a token of one of the block's lowercased attribute values), in
    /// ascending id order. The index is refreshed first when the workspace
    /// changed since its last refresh.
    pub fn search(&mut self, word: &str) -> (r: Vec<String>)
        requires
            old(self).wf(),
        ensures
            final(self).wf(),
            final(self)@ == old(self)@,
            final(self).spec_id() == old(self).spec_id(),
            final(self).spec_client_id() == old(self).spec_client_id(),
            ids_ascending(r@.map_values(|s: String| s@)),
            r@.map_values(|s: String| s@).to_set() == matching_ids(old(self)@.blocks, word@).to_set(),
    {
        proof { lemma_matching_ids_distinct(self@.blocks, word@); }
        let dirty = match self.plugins.get_plugin() {
            Some(p) => p.is_dirty(),
            None => false,
        };
        if dirty {
            let _ = self.plugins.update_plugin(&self.blocks);
        }
        let found = match self.plugins.get_plugin() {
            Some(p) => p.search(word),
            None => crate::search::search_blocks(&self.blocks, word),
        };
        sort_ids(found)
    }

    /// The ids that `search` finds, as a JSON array of strings.
    pub fn search_result(&mut self, query: &str) -> (r: String)
        requires
            old(self).wf(),
        ensures
            final(self).wf(),
            final(self)@ == old(self)@,
            final(self).spec_id() == old(self).spec_id(),
            final(self).spec_client_id() == old(self).spec_client_id(),
            exists|ids: Seq<Seq<char>>| ids_ascending(ids)
                && ids.to_set() == matching_ids(old(self)@.blocks, query@).to_set()
                && r@ == json_string_array(ids),
    {
        let ids = self.search(query);
        to_json_array(&ids)
    }

    /// The JSON view `{"blocks":{...},"updated":{...}}`, read in one go.
    pub fn to_json(&self) -> (r: String)
        ensures
            r@ == crate::json::workspace_json(self@),
    {
        let mut out = String::new();
        proof {
            reveal_strlit("{");
            reveal_strlit("blocks");
            reveal_strlit(":{");
            reveal_strlit("},");
            reveal_strlit("updated");
            reveal_strlit("}}");
            reveal_strlit(",");
        }
        crate::json::write_text(&mut out, "{");
        crate::json::write_str(&mut out, "blocks");
        crate::json::write_text(&mut out, ":{");
        let ghost bs = self@.blocks;
        let ghost mid = out@;
        let mut i: usize = 0;
        while i < self.blocks.len()
            invariant
                i <= self.blocks@.len(),
                bs == self@.blocks,
                bs.len() == self.blocks@.len(),
                out@ == mid + crate::json::blocks_json(bs.subrange(0, i as int)),
            decreases self.blocks@.len() - i,
        {
            let ghost before = out@;
            let ghost sub = bs.subrange(0, i + 1);
            assert(sub.drop_last() =~= bs.subrange(0, i as int));
            assert(sub.last() == self.blocks@[i as int]@);
            if i > 0 {
                proof { reveal_strlit(","); }
                crate::json::write_text(&mut out, ",");
                assert(out@ =~= before + seq![',']);
                crate::json::write_block(&mut out, &self.blocks[i]);
                assert(crate::json::blocks_json(sub) == crate::json::blocks_json(sub.drop_last()) + seq![','] + crate::json::block_entry(sub.last()));
            } else {
                crate::json::write_block(&mut out, &self.blocks[i]);
                assert(sub[0] == sub.last());
                assert(crate::json::blocks_json(sub) == crate::json::block_entry(sub[0]));
                assert(crate::json::blocks_json(bs.subrange(0, 0)) =~= Seq::<char>::empty());
            }
            assert(out@ =~= mid + crate::json::blocks_json(sub));
            i = i + 1;
        }
        assert(bs.subrange(0, i as int) =~= bs);
        crate::json::write_text(&mut out, "},");
        crate::json::write_str(&mut out, "updated");
        crate::json::write_text(&mut out, ":{");
        let ghost ls = self@.updated;
        let ghost mid2 = out@;
        let mut k: usize = 0;
        while k < self.updated.len()
            invariant
                k <= self.updated@.len(),
                ls == self@.updated,
                ls.len() == self.updated@.len(),
                out@ == mid2 + crate::json::logs_json(ls.subrange(0, k as int)),
            decreases self.updated@.len() - k,
        {
            let ghost before = out@;
            let ghost sub = ls.subrange(0, k + 1);
            assert(sub.drop_last() =~= ls.subrange(0, k as int));
            assert(sub.last() == self.updated@[k as int]@);
            if k > 0 {
                proof { reveal_strlit(","); }
                crate::json::write_text(&mut out, ",");
                assert(out@ =~= before + seq![',']);
                crate::json::write_log(&mut out, &self.updated[k]);
                assert(crate::json::logs_json(sub) == crate::json::logs_json(sub.drop_last()) + seq![','] + crate::json::log_entry(sub.last()));
            } else {
                crate::json::write_log(&mut out, &self.updated[k]);
                assert(sub[0] == sub.last());
                assert(crate::json::logs_json(sub) == crate::json::log_entry(sub[0]));
                assert(crate::json::logs_json(ls.subrange(0, 0)) =~= Seq::<char>::empty());
            }
            assert(out@ =~= mid2 + crate::json::logs_json(sub));
            k = k + 1;
        }
        assert(ls.subrange(0, k as int) =~= ls);
        crate::json::write_text(&mut out, "}}");
        assert("blocks"@ =~= seq!['b', 'l', 'o', 'c', 'k', 's']);
        assert("updated"@ =~= seq!['u', 'p', 'd', 'a', 't', 'e', 'd']);
        assert(out@ =~= crate::json::workspace_json(self@));
        out
    }
}

} // verus!
