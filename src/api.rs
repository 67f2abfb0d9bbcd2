//! Paging parameters and paged results of listing endpoints.

use vstd::prelude::*;

verus! {

/// The page size used when none is given: no limit.
pub fn default_limit() -> (r: usize)
    ensures
        r == usize::MAX,
{
    usize::MAX
}

/// Which part of a list to return: skip `offset` items, then take at most
/// `limit`.
#[derive(Clone, Copy, Debug, PartialEq, Eq, Structural)]
pub struct Pagination {
    pub offset: usize,
    pub limit: usize,
}

impl Pagination {
    /// Paging parameters with their defaults filled in: offset 0, no limit.
    pub fn new(offset: Option<usize>, limit: Option<usize>) -> (r: Pagination)
        ensures
            r.offset == (match offset { Some(o) => o, None => 0 }),
            r.limit == (match limit { Some(l) => l, None => usize::MAX }),
    {
        Pagination {
            offset: match offset { Some(o) => o, None => 0 },
            limit: match limit { Some(l) => l, None => default_limit() },
        }
    }
}

/// One page of a list, with the length of the whole list.
#[derive(Debug)]
pub struct PageData<T> {
    pub total: usize,
    pub data: T,
}

} // verus!
