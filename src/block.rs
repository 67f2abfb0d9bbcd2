//! Blocks: typed records with an immutable flavour and free-form attributes,
//! and the records of the per-block edit log.

use vstd::prelude::*;
use crate::text::{owned, str_eq};

verus! {

/// The attribute name that holds a block's flavour; it is written once.
pub open spec fn flavor_key() -> Seq<char> {
    seq!['f', 'l', 'a', 'v', 'o', 'r']
}

/// Whether `key` names the flavour.
pub fn is_flavor_key(key: &str) -> (r: bool)
    ensures
        r == (key@ == flavor_key()),
{
    let k = "flavor";
    proof {
        reveal_strlit("flavor");
        assert(k@ =~= flavor_key());
    }
    str_eq(key, k)
}

/// What an edit record says happened to a block.
#[derive(Clone, Copy, Debug, PartialEq, Eq, Structural)]
pub enum EditKind {
    Create,
    Update,
    Delete,
}

/// One entry of a block's edit log: who edited, when, and how.
#[derive(Clone, Copy, Debug, PartialEq, Eq, Structural)]
pub struct EditRecord {
    pub client_id: u64,
    pub timestamp: u64,
    pub kind: EditKind,
}

/// A key/value attribute of a block.
#[derive(Debug)]
pub struct Attr {
    pub key: String,
    pub value: String,
}

/// A block as seen through a transaction: its id, its flavour and its
/// attributes in the order they were first written.
#[derive(Debug)]
pub struct Block {
    pub id: String,
    pub flavor: String,
    pub attrs: Vec<Attr>,
}

/// The mathematical value of a block.
pub ghost struct BlockModel {
    pub id: Seq<char>,
    pub flavor: Seq<char>,
    pub attrs: Seq<(Seq<char>, Seq<char>)>,
}

pub open spec fn attr_view(a: Attr) -> (Seq<char>, Seq<char>) {
    (a.key@, a.value@)
}

/// The value stored under `key` in an attribute list, if any.
pub open spec fn attr_lookup(attrs: Seq<(Seq<char>, Seq<char>)>, key: Seq<char>) -> Option<Seq<char>>
    decreases attrs.len(),
{
    if attrs.len() == 0 {
        None
    } else if attrs.last().0 == key {
        Some(attrs.last().1)
    } else {
        attr_lookup(attrs.drop_last(), key)
    }
}

/// The attribute list after writing `value` under `key`: an existing entry is
/// overwritten in place, a new key is appended.
pub open spec fn attr_write(attrs: Seq<(Seq<char>, Seq<char>)>, key: Seq<char>, value: Seq<char>) -> Seq<(Seq<char>, Seq<char>)> {
    if exists|i: int| 0 <= i < attrs.len() && attrs[i].0 == key {
        let i = choose|i: int| 0 <= i < attrs.len() && attrs[i].0 == key;
        attrs.update(i, (key, value))
    } else {
        attrs.push((key, value))
    }
}

/// Keys of an attribute list are pairwise distinct.
pub open spec fn attrs_unique(attrs: Seq<(Seq<char>, Seq<char>)>) -> bool {
    forall|i: int, j: int| 0 <= i < j < attrs.len() ==> attrs[i].0 != attrs[j].0
}

/// In a list with distinct keys, the entry at `i` is what a lookup of its key finds.
pub proof fn lemma_lookup_at(attrs: Seq<(Seq<char>, Seq<char>)>, i: int)
    requires
        attrs_unique(attrs),
        0 <= i < attrs.len(),
    ensures
        attr_lookup(attrs, attrs[i].0) == Some(attrs[i].1),
    decreases attrs.len(),
{
    if i != attrs.len() - 1 {
        lemma_lookup_at(attrs.drop_last(), i);
    }
}

/// A key that no entry carries is not found.
pub proof fn lemma_lookup_absent(attrs: Seq<(Seq<char>, Seq<char>)>, key: Seq<char>)
    requires
        forall|i: int| 0 <= i < attrs.len() ==> attrs[i].0 != key,
    ensures
        attr_lookup(attrs, key) is None,
    decreases attrs.len(),
{
    if attrs.len() > 0 {
        lemma_lookup_absent(attrs.drop_last(), key);
    }
}

/// After a write of `value` under `key`, a lookup of `key` finds `value`,
/// and keys stay distinct.
pub proof fn lemma_write_then_lookup(attrs: Seq<(Seq<char>, Seq<char>)>, key: Seq<char>, value: Seq<char>)
    requires
        attrs_unique(attrs),
    ensures
        attrs_unique(attr_write(attrs, key, value)),
        attr_lookup(attr_write(attrs, key, value), key) == Some(value),
{
    let w = attr_write(attrs, key, value);
    if exists|i: int| 0 <= i < attrs.len() && attrs[i].0 == key {
        let i = choose|i: int| 0 <= i < attrs.len() && attrs[i].0 == key;
        assert(w == attrs.update(i, (key, value)));
        assert(attrs_unique(w));
        lemma_lookup_at(w, i);
    } else {
        assert(w == attrs.push((key, value)));
        assert(attrs_unique(w));
        lemma_lookup_at(w, attrs.len() as int);
    }
}

/// Writing one key leaves what every other key reads unchanged.
pub proof fn lemma_write_other(attrs: Seq<(Seq<char>, Seq<char>)>, key: Seq<char>, value: Seq<char>, other: Seq<char>)
    requires
        attrs_unique(attrs),
        key != other,
    ensures
        attr_lookup(attr_write(attrs, key, value), other) == attr_lookup(attrs, other),
{
    let w = attr_write(attrs, key, value);
    lemma_write_then_lookup(attrs, key, value);
    if exists|i: int| 0 <= i < attrs.len() && attrs[i].0 == other {
        let i = choose|i: int| 0 <= i < attrs.len() && attrs[i].0 == other;
        lemma_lookup_at(attrs, i);
        assert(w[i] == attrs[i]);
        lemma_lookup_at(w, i);
    } else {
        lemma_lookup_absent(attrs, other);
        assert forall|j: int| 0 <= j < w.len() implies w[j].0 != other by {
            if j < attrs.len() && w[j] != attrs[j] {
            }
        }
        lemma_lookup_absent(w, other);
    }
}

impl Attr {
    pub fn duplicate(&self) -> (r: Attr)
        ensures
            attr_view(r) == attr_view(*self),
    {
        Attr { key: self.key.clone(), value: self.value.clone() }
    }
}

impl Block {
    pub open spec fn view(&self) -> BlockModel {
        BlockModel {
            id: self.id@,
            flavor: self.flavor@,
            attrs: self.attrs@.map_values(|a: Attr| attr_view(a)),
        }
    }

    /// A block that keys never repeat in.
    pub open spec fn wf(&self) -> bool {
        attrs_unique(self@.attrs)
    }

    /// A fresh block with no attributes.
    pub fn new(id: &str, flavor: &str) -> (r: Block)
        ensures
            r@.id == id@,
            r@.flavor == flavor@,
            r@.attrs == Seq::<(Seq<char>, Seq<char>)>::empty(),
            r.wf(),
    {
        let r = Block { id: owned(id), flavor: owned(flavor), attrs: Vec::new() };
        assert(r@.attrs =~= Seq::<(Seq<char>, Seq<char>)>::empty());
        r
    }

    pub fn id(&self) -> (r: String)
        ensures
            r@ == self@.id,
    {
        self.id.clone()
    }

    pub fn flavor(&self) -> (r: String)
        ensures
            r@ == self@.flavor,
    {
        self.flavor.clone()
    }

    /// A deep copy of the block.
    pub fn duplicate(&self) -> (r: Block)
        ensures
            r@ == self@,
    {
        let mut attrs: Vec<Attr> = Vec::new();
        let mut i: usize = 0;
        while i < self.attrs.len()
            invariant
                i <= self.attrs@.len(),
                attrs@.len() == i,
                forall|j: int| 0 <= j < i ==> attr_view(#[trigger] attrs@[j]) == attr_view(self.attrs@[j]),
            decreases self.attrs@.len() - i,
        {
            attrs.push(self.attrs[i].duplicate());
            i = i + 1;
        }
        let r = Block { id: self.id.clone(), flavor: self.flavor.clone(), attrs };
        assert(r@.attrs =~= self@.attrs);
        r
    }

    /// The value of attribute `key`; the flavour is read under its own key.
    pub fn get(&self, key: &str) -> (r: Option<String>)
        requires
            self.wf(),
        ensures
            r matches Some(v) ==> attr_lookup(self@.attrs, key@) == Some(v@),
            r is None ==> attr_lookup(self@.attrs, key@) is None,
    {
        let mut i: usize = 0;
        while i < self.attrs.len()
            invariant
                i <= self.attrs@.len(),
                self.wf(),
                forall|j: int| 0 <= j < i ==> self@.attrs[j].0 != key@,
            decreases self.attrs@.len() - i,
        {
            if str_eq(self.attrs[i].key.as_str(), key) {
                proof { lemma_lookup_at(self@.attrs, i as int); }
                return Some(self.attrs[i].value.clone());
            }
            i = i + 1;
        }
        proof { lemma_lookup_absent(self@.attrs, key@); }
        None
    }

    /// Writes `value` under `key` (the flavour check is the caller's).
    pub(crate) fn write_attr(&mut self, key: &str, value: &str)
        requires
            old(self).wf(),
        ensures
            final(self).wf(),
            final(self)@.id == old(self)@.id,
            final(self)@.flavor == old(self)@.flavor,
            final(self)@.attrs == attr_write(old(self)@.attrs, key@, value@),
    {
        proof { lemma_write_then_lookup(self@.attrs, key@, value@); }
        let mut i: usize = 0;
        while i < self.attrs.len()
            invariant
                i <= self.attrs@.len(),
                self.id == old(self).id,
                self.flavor == old(self).flavor,
                self.attrs == old(self).attrs,
                old(self).wf(),
                forall|j: int| 0 <= j < i ==> self@.attrs[j].0 != key@,
            decreases self.attrs@.len() - i,
        {
            if str_eq(self.attrs[i].key.as_str(), key) {
                let ghost before = self@.attrs;
                assert(before[i as int].0 == key@);
                assert(exists|k: int| 0 <= k < before.len() && before[k].0 == key@);
                let ghost c = choose|k: int| 0 <= k < before.len() && before[k].0 == key@;
                assert(c == i) by {
                    if c < i {
                    } else if c > i {
                        assert(attrs_unique(before));
                    }
                }
                self.attrs.set(i, Attr { key: owned(key), value: owned(value) });
                assert(self@.attrs =~= before.update(i as int, (key@, value@)));
                return;
            }
            i = i + 1;
        }
        let ghost before = self@.attrs;
        self.attrs.push(Attr { key: owned(key), value: owned(value) });
        assert(self@.attrs =~= before.push((key@, value@)));
    }
}

} // verus!
