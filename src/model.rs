use vstd::prelude::*;
use crate::names::{is_safe_entry_name, is_safe_name};

verus! {

/// One named unit of an archive: a file with its payload, or a directory
/// marker (a name ending in `/`, with no payload).
#[derive(Clone, Debug, PartialEq, Eq)]
pub struct ArchiveEntry {
    pub name: String,
    pub data: Vec<u8>,
}

impl View for ArchiveEntry {
    type V = (Seq<char>, Seq<u8>);

    open spec fn view(&self) -> (Seq<char>, Seq<u8>) {
        (self.name@, self.data@)
    }
}

/// The views of a list of entries, in order.
pub open spec fn entries_view(es: Seq<ArchiveEntry>) -> Seq<(Seq<char>, Seq<u8>)> {
    es.map_values(|e: ArchiveEntry| e@)
}

/// The position of the first entry whose name is not safe, or -1 where
/// every name is.
pub open spec fn first_unsafe(es: Seq<(Seq<char>, Seq<u8>)>) -> int
    decreases es.len(),
{
    if es.len() == 0 {
        -1
    } else if first_unsafe(es.drop_last()) >= 0 {
        first_unsafe(es.drop_last())
    } else if !is_safe_name(es.last().0) {
        es.len() - 1
    } else {
        -1
    }
}

pub proof fn lemma_first_unsafe_bounds(es: Seq<(Seq<char>, Seq<u8>)>)
    ensures
        -1 <= first_unsafe(es) < es.len(),
        first_unsafe(es) >= 0 ==> !is_safe_name(es[first_unsafe(es)].0),
        first_unsafe(es) < 0 <==> forall|i: int| 0 <= i < es.len() ==> is_safe_name(#[trigger] es[i].0),
    decreases es.len(),
{
    if es.len() > 0 {
        lemma_first_unsafe_bounds(es.drop_last());
        assert(forall|i: int| 0 <= i < es.len() - 1 ==> es.drop_last()[i] == es[i]);
    }
}

/// An unsafe name among the first `k` entries is the first of all.
pub proof fn lemma_first_unsafe_prefix(es: Seq<(Seq<char>, Seq<u8>)>, k: int)
    requires
        0 <= k <= es.len(),
        first_unsafe(es.take(k)) >= 0,
    ensures
        first_unsafe(es) == first_unsafe(es.take(k)),
    decreases es.len(),
{
    if es.len() == k {
        assert(es.take(k) == es);
    } else {
        assert(es.drop_last().take(k) == es.take(k));
        lemma_first_unsafe_prefix(es.drop_last(), k);
    }
}

/// The position of the first entry of `es` whose name is not safe.
pub fn find_unsafe(es: &Vec<ArchiveEntry>) -> (r: Option<usize>)
    ensures
        r is None <==> first_unsafe(entries_view(es@)) < 0,
        r is Some ==> r->0 == first_unsafe(entries_view(es@)),
{
    let ghost v = entries_view(es@);
    let mut i: usize = 0;
    while i < es.len()
        invariant
            i <= es@.len(),
            v == entries_view(es@),
            v.len() == es@.len(),
            first_unsafe(v.take(i as int)) < 0,
        decreases es.len() - i,
    {
        assert(v.take(i + 1).drop_last() == v.take(i as int));
        if !is_safe_entry_name(es[i].name.as_str()) {
            assert(first_unsafe(v.take(i + 1)) == i);
            proof {
                lemma_first_unsafe_prefix(v, i + 1);
            }
            return Some(i);
        }
        i += 1;
    }
    assert(v.take(i as int) == v);
    None
}

/// The error for an unsafe name among `es`, naming the first one.
pub open spec fn names_first_unsafe(e: ArchiveError, es: Seq<(Seq<char>, Seq<u8>)>) -> bool {
    &&& e is UnsafeEntryName
    &&& first_unsafe(es) >= 0
    &&& e->UnsafeEntryName_0@ == es[first_unsafe(es)].0
}

/// A copy of `v`.
pub fn copy_bytes(v: &Vec<u8>) -> (r: Vec<u8>)
    ensures
        r@ == v@,
{
    let mut r: Vec<u8> = Vec::new();
    let mut i: usize = 0;
    while i < v.len()
        invariant
            i <= v@.len(),
            r@ == v@.subrange(0, i as int),
        decreases v.len() - i,
    {
        r.push(v[i]);
        i += 1;
        assert(r@ =~= v@.subrange(0, i as int));
    }
    assert(r@ =~= v@);
    r
}

/// What can go wrong while packing or unpacking.
#[derive(Clone, Debug, PartialEq, Eq)]
pub enum ArchiveError {
    /// Reading or writing a file or directory failed.
    Filesystem(String),
    /// The archive is malformed, truncated or holds an unreadable entry.
    Format(String),
    /// The archive's central directory could not be written.
    Finalize(String),
    /// An entry name is empty, absolute or climbs out of its root with `..`.
    UnsafeEntryName(String),
    /// The named entry's payload is larger than one entry may be.
    EntryTooLarge(String),
}

} // verus!
