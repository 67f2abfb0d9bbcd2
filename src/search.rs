//! Keyword search over the text attributes of blocks. Text and query are
//! lowercased; a token is a maximal run of alphanumeric characters; a block
//! matches when every token of the query is a token of one of its attribute
//! values.

use vstd::prelude::*;
use crate::block::{Block, BlockModel};

verus! {

/// What `str::to_lowercase` returns.
pub uninterp spec fn lower_of(s: Seq<char>) -> Seq<char>;

/// What `char::is_alphanumeric` returns.
pub uninterp spec fn alnum_of(c: char) -> bool;

/// Relies on str::to_lowercase: the lowercase mapping of every character,
/// which depends on the characters alone.
#[verifier::external_body]
fn lowercase(s: &str) -> (r: String)
    ensures
        r@ == lower_of(s@),
{
    s.to_lowercase()
}

/// Relies on char::is_alphanumeric: whether the character is alphabetic or
/// numeric in Unicode, which depends on the character alone.
#[verifier::external_body]
fn is_alnum(c: char) -> (r: bool)
    ensures
        r == alnum_of(c),
{
    c.is_alphanumeric()
}

/// `text[i..j]` is a token: a non-empty maximal run of alphanumeric characters.
pub open spec fn is_token(text: Seq<char>, i: int, j: int) -> bool {
    &&& 0 <= i < j <= text.len()
    &&& forall|k: int| i <= k < j ==> alnum_of(#[trigger] text[k])
    &&& (i == 0 || !alnum_of(text[i - 1]))
    &&& (j == text.len() || !alnum_of(text[j]))
}

/// `w` is one of the tokens of `text`.
pub open spec fn has_token(text: Seq<char>, w: Seq<char>) -> bool {
    exists|i: int| is_token(text, i, i + w.len()) && #[trigger] text.subrange(i, i + w.len()) == w
}

/// Some lowercased attribute value of the block has the token.
pub open spec fn block_has_token(b: BlockModel, w: Seq<char>) -> bool {
    exists|j: int| 0 <= j < b.attrs.len() && has_token(lower_of(#[trigger] b.attrs[j].1), w)
}

/// The block matches the query: the lowercased query has a token, and each of
/// its tokens is a token of some lowercased attribute value.
pub open spec fn block_matches(b: BlockModel, q: Seq<char>) -> bool {
    let lq = lower_of(q);
    &&& exists|i: int, j: int| is_token(lq, i, j)
    &&& forall|i: int, j: int| is_token(lq, i, j) ==> block_has_token(b, #[trigger] lq.subrange(i, j))
}

/// The ids of the matching blocks, in order.
pub open spec fn matching_ids(blocks: Seq<BlockModel>, q: Seq<char>) -> Seq<Seq<char>>
    decreases blocks.len(),
{
    if blocks.len() == 0 {
        Seq::empty()
    } else {
        let before = matching_ids(blocks.drop_last(), q);
        if block_matches(blocks.last(), q) {
            before.push(blocks.last().id)
        } else {
            before
        }
    }
}

fn token_at(text: &Vec<char>, w: &Vec<char>, i: usize) -> (r: bool)
    requires
        i + w@.len() <= text@.len(),
        w@.len() > 0,
    ensures
        r == (is_token(text@, i as int, i + w@.len()) && text@.subrange(i as int, i + w@.len()) == w@),
{
    let n = text.len();
    let m = w.len();
    if i > 0 && is_alnum(text[i - 1]) {
        return false;
    }
    if i + m < n && is_alnum(text[i + m]) {
        return false;
    }
    let mut k: usize = 0;
    while k < m
        invariant
            k <= m,
            m == w@.len(),
            n == text@.len(),
            i + m <= n,
            forall|j: int| 0 <= j < k ==> text@[i + j] == w@[j] && alnum_of(text@[i + j]),
        decreases m - k,
    {
        if text[i + k] != w[k] {
            assert(text@.subrange(i as int, i + m)[k as int] != w@[k as int]);
            return false;
        }
        if !is_alnum(text[i + k]) {
            assert(!alnum_of(text@[i + k]));
            return false;
        }
        k = k + 1;
    }
    assert(text@.subrange(i as int, i + m) =~= w@);
    assert forall|x: int| i <= x < i + m implies alnum_of(#[trigger] text@[x]) by {
        let jj = x - i;
        assert(text@[i + jj] == w@[jj]);
    }
    true
}

/// Whether `w` is a token of `text`.
fn contains_token(text: &Vec<char>, w: &Vec<char>) -> (r: bool)
    requires
        w@.len() > 0,
    ensures
        r == has_token(text@, w@),
{
    let n = text.len();
    let m = w.len();
    if m > n {
        assert forall|i: int| !(is_token(text@, i, i + m) && #[trigger] text@.subrange(i, i + m) == w@) by {
            if is_token(text@, i, i + m) {
                assert(i + m <= n);
            }
        }
        return false;
    }
    let mut i: usize = 0;
    while i <= n - m
        invariant
            m == w@.len(),
            n == text@.len(),
            0 < m <= n,
            i <= n - m + 1,
            forall|j: int| 0 <= j < i ==> !(is_token(text@, j, j + m) && #[trigger] text@.subrange(j, j + m) == w@),
        decreases n - i,
    {
        if token_at(text, w, i) {
            return true;
        }
        i = i + 1;
    }
    assert forall|j: int| !(is_token(text@, j, j + m) && #[trigger] text@.subrange(j, j + m) == w@) by {
        if 0 <= j < i {
        }
    }
    false
}

fn chars_of(s: &str) -> (r: Vec<char>)
    ensures
        r@ == s@,
{
    let n = s.unicode_len();
    let mut r: Vec<char> = Vec::new();
    let mut i: usize = 0;
    while i < n
        invariant
            n == s@.len(),
            i <= n,
            r@ == s@.subrange(0, i as int),
        decreases n - i,
    {
        r.push(s.get_char(i));
        assert(r@ =~= s@.subrange(0, i + 1));
        i = i + 1;
    }
    assert(s@.subrange(0, n as int) =~= s@);
    r
}

fn slice_of(v: &Vec<char>, i: usize, j: usize) -> (r: Vec<char>)
    requires
        i <= j <= v@.len(),
    ensures
        r@ == v@.subrange(i as int, j as int),
{
    let mut r: Vec<char> = Vec::new();
    let mut k: usize = i;
    while k < j
        invariant
            i <= k <= j,
            j <= v@.len(),
            r@ == v@.subrange(i as int, k as int),
        decreases j - k,
    {
        r.push(v[k]);
        assert(r@ =~= v@.subrange(i as int, k + 1));
        k = k + 1;
    }
    r
}

/// Whether some lowercased attribute value of the block has the token.
fn block_token(values: &Vec<Vec<char>>, b: &Block, w: &Vec<char>) -> (r: bool)
    requires
        w@.len() > 0,
        values@.len() == b.attrs@.len(),
        forall|j: int| 0 <= j < values@.len() ==> (#[trigger] values@[j])@ == lower_of(b.attrs@[j].value@),
    ensures
        r == block_has_token(b@, w@),
{
    let mut j: usize = 0;
    while j < values.len()
        invariant
            j <= values@.len(),
            w@.len() > 0,
            values@.len() == b.attrs@.len(),
            forall|j: int| 0 <= j < values@.len() ==> (#[trigger] values@[j])@ == lower_of(b.attrs@[j].value@),
            forall|k: int| 0 <= k < j ==> !has_token(lower_of(#[trigger] b@.attrs[k].1), w@),
        decreases values@.len() - j,
    {
        assert(b@.attrs[j as int].1 == b.attrs@[j as int].value@);
        if contains_token(&values[j], w) {
            return true;
        }
        j = j + 1;
    }
    false
}

/// Whether the block matches the query, given the query lowercased.
fn block_matches_exec(b: &Block, q: &str, lq: &Vec<char>) -> (r: bool)
    requires
        lq@ == lower_of(q@),
    ensures
        r == block_matches(b@, q@),
{
    let mut values: Vec<Vec<char>> = Vec::new();
    let mut a: usize = 0;
    while a < b.attrs.len()
        invariant
            a <= b.attrs@.len(),
            values@.len() == a,
            forall|j: int| 0 <= j < a ==> (#[trigger] values@[j])@ == lower_of(b.attrs@[j].value@),
        decreases b.attrs@.len() - a,
    {
        let low = lowercase(b.attrs[a].value.as_str());
        values.push(chars_of(low.as_str()));
        a = a + 1;
    }
    let n = lq.len();
    let mut found = false;
    let mut i: usize = 0;
    while i < n
        invariant
            i <= n,
            n == lq@.len(),
            lq@ == lower_of(q@),
            values@.len() == b.attrs@.len(),
            forall|j: int| 0 <= j < values@.len() ==> (#[trigger] values@[j])@ == lower_of(b.attrs@[j].value@),
            found == exists|x: int, y: int| x < i && is_token(lq@, x, y),
            forall|x: int, y: int| x < i && is_token(lq@, x, y) ==> block_has_token(b@, #[trigger] lq@.subrange(x, y)),
            i > 0 && i < n ==> !alnum_of(lq@[i - 1]) || !alnum_of(lq@[i as int]),
        decreases n - i,
    {
        if is_alnum(lq[i]) && (i == 0 || !is_alnum(lq[i - 1])) {
            let mut j: usize = i + 1;
            while j < n && is_alnum(lq[j])
                invariant
                    i < j <= n,
                    n == lq@.len(),
                    values@.len() == b.attrs@.len(),
                    forall|j: int| 0 <= j < values@.len() ==> (#[trigger] values@[j])@ == lower_of(b.attrs@[j].value@),
                    forall|k: int| i <= k < j ==> alnum_of(#[trigger] lq@[k]),
                decreases n - j,
            {
                j = j + 1;
            }
            assert(is_token(lq@, i as int, j as int));
            let w = slice_of(lq, i, j);
            let ok = block_token(&values, b, &w);
            assert forall|x: int, y: int| i <= x < j && is_token(lq@, x, y) implies x == i && y == j by {
                if x > i {
                    assert(alnum_of(lq@[x - 1]));
                }
                if y < j {
                    assert(alnum_of(lq@[y]));
                } else if y > j {
                    assert(alnum_of(lq@[j as int]));
                }
            }
            if !ok {
                assert(is_token(lq@, i as int, j as int) && !block_has_token(b@, lq@.subrange(i as int, j as int)));
                return false;
            }
            found = true;
            i = j;
        } else {
            assert forall|y: int| !is_token(lq@, i as int, y) by {}
            i = i + 1;
        }
    }
    found
}

/// The ids of the blocks, in order, that match the query.
pub fn search_blocks(blocks: &Vec<Block>, q: &str) -> (r: Vec<String>)
    ensures
        r@.map_values(|s: String| s@) == matching_ids(blocks@.map_values(|b: Block| b@), q@),
{
    let low = lowercase(q);
    let lq = chars_of(low.as_str());
    let ghost all = blocks@.map_values(|b: Block| b@);
    let mut r: Vec<String> = Vec::new();
    let mut i: usize = 0;
    while i < blocks.len()
        invariant
            i <= blocks@.len(),
            lq@ == lower_of(q@),
            all == blocks@.map_values(|b: Block| b@),
            r@.map_values(|s: String| s@) == matching_ids(all.subrange(0, i as int), q@),
        decreases blocks@.len() - i,
    {
        let ghost before = r@.map_values(|s: String| s@);
        assert(all.subrange(0, i + 1).drop_last() =~= all.subrange(0, i as int));
        assert(all.subrange(0, i + 1).last() == blocks@[i as int]@);
        if block_matches_exec(&blocks[i], q, &lq) {
            r.push(blocks[i].id.clone());
            assert(r@.map_values(|s: String| s@) =~= before.push(blocks@[i as int]@.id));
        } else {
            assert(r@.map_values(|s: String| s@) =~= before);
        }
        i = i + 1;
    }
    assert(all.subrange(0, i as int) =~= all);
    r
}

/// Lexicographic order on strings, character by character.
pub open spec fn id_lt(a: Seq<char>, b: Seq<char>) -> bool
    decreases a.len(),
{
    if a.len() == 0 {
        b.len() > 0
    } else if b.len() == 0 {
        false
    } else if a[0] != b[0] {
        a[0] < b[0]
    } else {
        id_lt(a.drop_first(), b.drop_first())
    }
}

/// Strictly ascending by `id_lt`.
pub open spec fn ids_ascending(s: Seq<Seq<char>>) -> bool {
    forall|i: int, j: int| 0 <= i < j < s.len() ==> id_lt(#[trigger] s[i], #[trigger] s[j])
}

pub proof fn lemma_id_lt_total(a: Seq<char>, b: Seq<char>)
    requires
        a != b,
    ensures
        id_lt(a, b) || id_lt(b, a),
    decreases a.len(),
{
    if a.len() > 0 && b.len() > 0 && a[0] == b[0] {
        assert(a.drop_first() != b.drop_first()) by {
            if a.drop_first() == b.drop_first() {
                assert(a =~= seq![a[0]] + a.drop_first());
                assert(b =~= seq![b[0]] + b.drop_first());
            }
        }
        lemma_id_lt_total(a.drop_first(), b.drop_first());
    } else if a.len() == 0 && b.len() == 0 {
        assert(a =~= b);
    }
}

pub proof fn lemma_id_lt_trans(a: Seq<char>, b: Seq<char>, c: Seq<char>)
    requires
        id_lt(a, b),
        id_lt(b, c),
    ensures
        id_lt(a, c),
    decreases a.len(),
{
    if a.len() > 0 && b.len() > 0 && c.len() > 0 && a[0] == b[0] && b[0] == c[0] {
        lemma_id_lt_trans(a.drop_first(), b.drop_first(), c.drop_first());
    }
}

pub proof fn lemma_id_lt_irreflexive(a: Seq<char>)
    ensures
        !id_lt(a, a),
    decreases a.len(),
{
    if a.len() > 0 {
        lemma_id_lt_irreflexive(a.drop_first());
    }
}

fn id_less(a: &str, b: &str) -> (r: bool)
    ensures
        r == id_lt(a@, b@),
{
    let n = a.unicode_len();
    let m = b.unicode_len();
    let mut i: usize = 0;
    assert(a@.subrange(0, n as int) =~= a@);
    assert(b@.subrange(0, m as int) =~= b@);
    while i < n && i < m
        invariant
            n == a@.len(),
            m == b@.len(),
            i <= n,
            i <= m,
            id_lt(a@, b@) == id_lt(a@.subrange(i as int, n as int), b@.subrange(i as int, m as int)),
        decreases n - i,
    {
        let x = a.get_char(i);
        let y = b.get_char(i);
        assert(a@.subrange(i as int, n as int)[0] == x);
        assert(b@.subrange(i as int, m as int)[0] == y);
        if x != y {
            return x < y;
        }
        assert(a@.subrange(i as int, n as int).drop_first() =~= a@.subrange(i + 1, n as int));
        assert(b@.subrange(i as int, m as int).drop_first() =~= b@.subrange(i + 1, m as int));
        i = i + 1;
    }
    i >= n && i < m
}

/// The strings in ascending order; they are distinct, and so is the result.
pub fn sort_ids(v: Vec<String>) -> (r: Vec<String>)
    requires
        v@.map_values(|s: String| s@).no_duplicates(),
    ensures
        ids_ascending(r@.map_values(|s: String| s@)),
        r@.map_values(|s: String| s@).to_set() == v@.map_values(|s: String| s@).to_set(),
        r@.len() == v@.len(),
{
    let ghost src = v@.map_values(|s: String| s@);
    let mut r: Vec<String> = Vec::new();
    let mut i: usize = 0;
    while i < v.len()
        invariant
            i <= v@.len(),
            src == v@.map_values(|s: String| s@),
            src.no_duplicates(),
            r@.len() == i,
            ids_ascending(r@.map_values(|s: String| s@)),
            r@.map_values(|s: String| s@).to_set() == src.subrange(0, i as int).to_set(),
        decreases v@.len() - i,
    {
        let ghost rv = r@.map_values(|s: String| s@);
        let x = v[i].clone();
        assert(x@ == src[i as int]);
        assert(!rv.contains(x@)) by {
            if rv.contains(x@) {
                assert(rv.to_set().contains(x@));
                assert(src.subrange(0, i as int).to_set().contains(x@));
                let k = choose|k: int| 0 <= k < i && src.subrange(0, i as int)[k] == x@;
                assert(src[k] == src[i as int]);
            }
        }
        let mut p: usize = 0;
        while p < r.len() && id_less(r[p].as_str(), x.as_str())
            invariant
                p <= r@.len(),
                rv == r@.map_values(|s: String| s@),
                forall|k: int| 0 <= k < p ==> id_lt(#[trigger] rv[k], x@),
            decreases r@.len() - p,
        {
            p = p + 1;
        }
        proof {
            if p < rv.len() {
                assert(rv[p as int] != x@);
                lemma_id_lt_total(rv[p as int], x@);
            }
        }
        r.insert(p, x);
        let ghost nv = r@.map_values(|s: String| s@);
        assert(nv =~= rv.insert(p as int, x@));
        assert forall|a: int, b: int| 0 <= a < b < nv.len() implies id_lt(#[trigger] nv[a], #[trigger] nv[b]) by {
            if b < p {
                assert(nv[a] == rv[a] && nv[b] == rv[b]);
            } else if b == p {
                assert(nv[a] == rv[a]);
            } else if a == p {
                assert(nv[b] == rv[b - 1]);
                if b - 1 > p {
                    lemma_id_lt_trans(x@, rv[p as int], rv[b - 1]);
                }
            } else if a < p {
                assert(nv[a] == rv[a] && nv[b] == rv[b - 1]);
            } else {
                assert(nv[a] == rv[a - 1] && nv[b] == rv[b - 1]);
            }
        }
        assert(src.subrange(0, i + 1) =~= src.subrange(0, i as int).push(x@));
        assert(nv.to_set() =~= rv.to_set().insert(x@)) by {
            assert forall|e: Seq<char>| #[trigger] nv.contains(e) <==> rv.contains(e) || e == x@ by {
                if nv.contains(e) {
                    let k = choose|k: int| 0 <= k < nv.len() && nv[k] == e;
                    if k < p { assert(rv[k] == e); } else if k > p { assert(rv[k - 1] == e); }
                }
                if rv.contains(e) {
                    let k = choose|k: int| 0 <= k < rv.len() && rv[k] == e;
                    if k < p { assert(nv[k] == e); } else { assert(nv[k + 1] == e); }
                }
                if e == x@ { assert(nv[p as int] == e); }
            }
        }
        let ghost s1 = src.subrange(0, i + 1);
        let ghost s0 = src.subrange(0, i as int);
        assert(s1.to_set() =~= s0.to_set().insert(x@)) by {
            assert forall|e: Seq<char>| #[trigger] s1.contains(e) <==> s0.contains(e) || e == x@ by {
                if s1.contains(e) {
                    let k = choose|k: int| 0 <= k < s1.len() && s1[k] == e;
                    if k < i { assert(s0[k] == e); }
                }
                if s0.contains(e) {
                    let k = choose|k: int| 0 <= k < s0.len() && s0[k] == e;
                    assert(s1[k] == e);
                }
                if e == x@ { assert(s1[i as int] == e); }
            }
        }
        i = i + 1;
    }
    assert(src.subrange(0, i as int) =~= src);
    r
}

/// With distinct block ids, the matching ids are distinct, and each is the
/// id of a block.
pub proof fn lemma_matching_ids_distinct(blocks: Seq<BlockModel>, q: Seq<char>)
    requires
        forall|i: int, j: int| 0 <= i < j < blocks.len() ==> blocks[i].id != blocks[j].id,
    ensures
        matching_ids(blocks, q).no_duplicates(),
        forall|k: int| 0 <= k < matching_ids(blocks, q).len() ==>
            exists|i: int| 0 <= i < blocks.len() && blocks[i].id == #[trigger] matching_ids(blocks, q)[k],
    decreases blocks.len(),
{
    if blocks.len() > 0 {
        let front = blocks.drop_last();
        lemma_matching_ids_distinct(front, q);
        let m = matching_ids(front, q);
        let last = blocks.len() - 1;
        assert forall|k: int| 0 <= k < m.len() implies #[trigger] m[k] != blocks[last].id by {
            let i = choose|i: int| 0 <= i < front.len() && front[i].id == m[k];
            assert(blocks[i].id == front[i].id);
        }
        let r = matching_ids(blocks, q);
        assert forall|k: int| 0 <= k < r.len() implies
            exists|i: int| 0 <= i < blocks.len() && blocks[i].id == #[trigger] r[k] by {
            if k < m.len() {
                assert(r[k] == m[k]);
                let i = choose|i: int| 0 <= i < front.len() && front[i].id == m[k];
                assert(blocks[i].id == r[k]);
            } else {
                assert(blocks[last].id == r[k]);
            }
        }
    }
}

} // verus!
