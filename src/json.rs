//! The JSON view of a workspace: `{"blocks":{...},"updated":{...}}`. A block
//! is an object holding its flavour and its attributes; an edit log is an
//! array of `[client_id, timestamp, kind]` records. Strings and numbers are
//! written by serde_json.

use vstd::prelude::*;
use crate::block::{Attr, Block, BlockModel, EditKind, EditRecord};
use crate::workspace::UpdatedLog;

verus! {

/// What `serde_json::to_string` returns for a string: the quoted, escaped
/// JSON string.
pub uninterp spec fn json_str(s: Seq<char>) -> Seq<char>;

/// What `serde_json::to_string` returns for a `u64`: its JSON number.
pub uninterp spec fn json_u64(n: u64) -> Seq<char>;

/// Relies on serde_json::to_string: a string as a JSON string literal;
/// serialising a string does not fail.
#[verifier::external_body]
fn quote(s: &str) -> (r: String)
    ensures
        r@ == json_str(s@),
{
    serde_json::to_string(s).unwrap_or_default()
}

/// Relies on serde_json::to_string: a `u64` as a JSON number; serialising an
/// integer does not fail.
#[verifier::external_body]
fn number(n: u64) -> (r: String)
    ensures
        r@ == json_u64(n),
{
    serde_json::to_string(&n).unwrap_or_default()
}

pub open spec fn kind_name(k: EditKind) -> Seq<char> {
    match k {
        EditKind::Create => seq!['c', 'r', 'e', 'a', 't', 'e'],
        EditKind::Update => seq!['u', 'p', 'd', 'a', 't', 'e'],
        EditKind::Delete => seq!['d', 'e', 'l', 'e', 't', 'e'],
    }
}

/// `,"key":"value"` for each attribute.
pub open spec fn attrs_json(attrs: Seq<(Seq<char>, Seq<char>)>) -> Seq<char>
    decreases attrs.len(),
{
    if attrs.len() == 0 {
        Seq::empty()
    } else {
        attrs_json(attrs.drop_last()) + seq![','] + json_str(attrs.last().0) + seq![':'] + json_str(attrs.last().1)
    }
}

/// `"id":{"flavor":"...",...}`.
pub open spec fn block_entry(b: BlockModel) -> Seq<char> {
    json_str(b.id) + seq![':', '{'] + json_str(seq!['f', 'l', 'a', 'v', 'o', 'r']) + seq![':'] + json_str(b.flavor)
        + attrs_json(b.attrs) + seq!['}']
}

/// `[client,timestamp,"kind"]`.
pub open spec fn record_json(r: EditRecord) -> Seq<char> {
    seq!['['] + json_u64(r.client_id) + seq![','] + json_u64(r.timestamp) + seq![','] + json_str(kind_name(r.kind)) + seq![']']
}

/// The records, comma-separated.
pub open spec fn records_json(rs: Seq<EditRecord>) -> Seq<char>
    decreases rs.len(),
{
    if rs.len() == 0 {
        Seq::empty()
    } else if rs.len() == 1 {
        record_json(rs[0])
    } else {
        records_json(rs.drop_last()) + seq![','] + record_json(rs.last())
    }
}

/// `"id":[...]`.
pub open spec fn log_entry(l: (Seq<char>, Seq<EditRecord>)) -> Seq<char> {
    json_str(l.0) + seq![':', '['] + records_json(l.1) + seq![']']
}

/// The blocks' entries, comma-separated.
pub open spec fn blocks_json(bs: Seq<BlockModel>) -> Seq<char>
    decreases bs.len(),
{
    if bs.len() == 0 {
        Seq::empty()
    } else if bs.len() == 1 {
        block_entry(bs[0])
    } else {
        blocks_json(bs.drop_last()) + seq![','] + block_entry(bs.last())
    }
}

/// The logs' entries, comma-separated.
pub open spec fn logs_json(ls: Seq<(Seq<char>, Seq<EditRecord>)>) -> Seq<char>
    decreases ls.len(),
{
    if ls.len() == 0 {
        Seq::empty()
    } else if ls.len() == 1 {
        log_entry(ls[0])
    } else {
        logs_json(ls.drop_last()) + seq![','] + log_entry(ls.last())
    }
}

fn push(out: &mut String, s: &str)
    ensures
        final(out)@ == old(out)@ + s@,
{
    out.append(s);
}

fn push_lit(out: &mut String, s: &str)
    ensures
        final(out)@ == old(out)@ + s@,
{
    out.append(s);
}

pub fn write_attrs(out: &mut String, attrs: &Vec<Attr>)
    ensures
        final(out)@ == old(out)@ + attrs_json(attrs@.map_values(|a: Attr| crate::block::attr_view(a))),
{
    let ghost all = attrs@.map_values(|a: Attr| crate::block::attr_view(a));
    let ghost start = out@;
    let mut i: usize = 0;
    while i < attrs.len()
        invariant
            i <= attrs@.len(),
            all == attrs@.map_values(|a: Attr| crate::block::attr_view(a)),
            out@ == start + attrs_json(all.subrange(0, i as int)),
        decreases attrs@.len() - i,
    {
        assert(all.subrange(0, i + 1).drop_last() =~= all.subrange(0, i as int));
        assert(all.subrange(0, i + 1).last() == all[i as int]);
        let c = ",";
        let k = quote(attrs[i].key.as_str());
        let col = ":";
        let v = quote(attrs[i].value.as_str());
        proof { reveal_strlit(","); reveal_strlit(":"); }
        push_lit(out, c);
        push(out, k.as_str());
        push_lit(out, col);
        push(out, v.as_str());
        assert(out@ =~= start + attrs_json(all.subrange(0, i + 1)));
        i = i + 1;
    }
    assert(all.subrange(0, i as int) =~= all);
}

pub fn write_block(out: &mut String, b: &Block)
    ensures
        final(out)@ == old(out)@ + block_entry(b@),
{
    let ghost start = out@;
    let id = quote(b.id.as_str());
    let fl = quote("flavor");
    let f = quote(b.flavor.as_str());
    proof {
        reveal_strlit("flavor");
        reveal_strlit(":{");
        reveal_strlit(":");
        reveal_strlit("}");
        assert("flavor"@ =~= seq!['f', 'l', 'a', 'v', 'o', 'r']);
    }
    push(out, id.as_str());
    push_lit(out, ":{");
    push(out, fl.as_str());
    push_lit(out, ":");
    push(out, f.as_str());
    write_attrs(out, &b.attrs);
    push_lit(out, "}");
    assert(out@ =~= start + block_entry(b@));
}

fn kind_str(k: EditKind) -> (r: &'static str)
    ensures
        r@ == kind_name(k),
{
    proof {
        reveal_strlit("create");
        reveal_strlit("update");
        reveal_strlit("delete");
    }
    match k {
        EditKind::Create => "create",
        EditKind::Update => "update",
        EditKind::Delete => "delete",
    }
}

pub fn write_record(out: &mut String, r: &EditRecord)
    ensures
        final(out)@ == old(out)@ + record_json(*r),
{
    let ghost start = out@;
    let c = number(r.client_id);
    let t = number(r.timestamp);
    let k = quote(kind_str(r.kind));
    proof {
        reveal_strlit("[");
        reveal_strlit(",");
        reveal_strlit("]");
    }
    push_lit(out, "[");
    push(out, c.as_str());
    push_lit(out, ",");
    push(out, t.as_str());
    push_lit(out, ",");
    push(out, k.as_str());
    push_lit(out, "]");
    assert(out@ =~= start + record_json(*r));
}

pub fn write_log(out: &mut String, l: &UpdatedLog)
    ensures
        final(out)@ == old(out)@ + log_entry(l@),
{
    let ghost start = out@;
    let id = quote(l.id.as_str());
    proof {
        reveal_strlit(":[");
        reveal_strlit(",");
        reveal_strlit("]");
    }
    push(out, id.as_str());
    push_lit(out, ":[");
    let ghost mid = out@;
    let ghost rs = l.records@;
    let mut i: usize = 0;
    while i < l.records.len()
        invariant
            i <= rs.len(),
            rs == l.records@,
            l@.1 == rs,
            out@ == mid + records_json(rs.subrange(0, i as int)),
        decreases rs.len() - i,
    {
        let ghost before = out@;
        assert(rs.subrange(0, i + 1).drop_last() =~= rs.subrange(0, i as int));
        assert(rs.subrange(0, i + 1).last() == rs[i as int]);
        let ghost sub = rs.subrange(0, i + 1);
        if i > 0 {
            proof { reveal_strlit(","); }
            push_lit(out, ",");
            assert(out@ =~= before + seq![',']);
            write_record(out, &l.records[i]);
            assert(sub.len() > 1);
            assert(records_json(sub) == records_json(sub.drop_last()) + seq![','] + record_json(sub.last()));
            assert(out@ =~= mid + records_json(sub));
        } else {
            write_record(out, &l.records[i]);
            assert(sub.len() == 1);
            assert(sub[0] == rs[0]);
            assert(records_json(sub) == record_json(sub[0]));
            assert(out@ =~= mid + records_json(sub));
        }
        i = i + 1;
    }
    assert(rs.subrange(0, i as int) =~= rs);
    push_lit(out, "]");
    assert(out@ =~= start + log_entry(l@));
}

/// The JSON view of a workspace model.
pub open spec fn workspace_json(m: crate::workspace::WorkspaceModel) -> Seq<char> {
    seq!['{'] + json_str(seq!['b', 'l', 'o', 'c', 'k', 's']) + seq![':', '{'] + blocks_json(m.blocks)
        + seq!['}', ','] + json_str(seq!['u', 'p', 'd', 'a', 't', 'e', 'd']) + seq![':', '{'] + logs_json(m.updated)
        + seq!['}', '}']
}

/// Appends a JSON string literal.
pub fn write_str(out: &mut String, s: &str)
    ensures
        final(out)@ == old(out)@ + json_str(s@),
{
    let q = quote(s);
    push(out, q.as_str());
}

/// Appends literal text.
pub fn write_text(out: &mut String, s: &str)
    ensures
        final(out)@ == old(out)@ + s@,
{
    push_lit(out, s);
}

} // verus!
