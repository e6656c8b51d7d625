use vstd::prelude::*;
use crate::codec::{
    archive_image, chunks_len, finish_writer, new_writer, staged_files, staged_within_limit, start_deflated_file,
    write_chunk, zip_error_text, MAX_ENTRY_BYTES,
};
use crate::model::{
    copy_bytes, entries_view, find_unsafe, first_unsafe, lemma_first_unsafe_bounds, names_first_unsafe,
    ArchiveEntry, ArchiveError,
};

verus! {

/// One immediate child of a directory that is packed: its name relative to
/// the directory, and its contents where it is a regular file (`None` for a
/// subdirectory or anything else that is not a regular file).
#[derive(Clone, Debug, PartialEq, Eq)]
pub struct SourceChild {
    pub name: String,
    pub contents: Option<Vec<u8>>,
}

/// What is packed: one regular file, under its base name, or a directory
/// given by its immediate children.
#[derive(Clone, Debug, PartialEq, Eq)]
pub enum SourceTree {
    File { name: String, contents: Vec<u8> },
    Directory { children: Vec<SourceChild> },
}

/// The regular files among `cs`, in order, as entries; other children are
/// left out.
pub open spec fn file_children(cs: Seq<SourceChild>) -> Seq<(Seq<char>, Seq<u8>)>
    decreases cs.len(),
{
    if cs.len() == 0 {
        Seq::empty()
    } else {
        match cs.last().contents {
            Some(d) => file_children(cs.drop_last()).push((cs.last().name@, d@)),
            None => file_children(cs.drop_last()),
        }
    }
}

/// The entries that packing `src` writes, in order: one per regular file.
pub open spec fn packed_entries(src: SourceTree) -> Seq<(Seq<char>, Seq<u8>)> {
    match src {
        SourceTree::File { name, contents } => seq![(name@, contents@)],
        SourceTree::Directory { children } => file_children(children@),
    }
}

/// The calls that hand `es` to an archive writer: each entry's payload is
/// written in one chunk.
pub open spec fn writer_files(es: Seq<(Seq<char>, Seq<u8>)>) -> Seq<(Seq<char>, Seq<Seq<u8>>)> {
    es.map_values(|e: (Seq<char>, Seq<u8>)| (e.0, seq![e.1]))
}

/// The entries that packing `source` writes, before any check of their
/// names.
pub fn collect_entries(source: &SourceTree) -> (r: Vec<ArchiveEntry>)
    ensures
        entries_view(r@) == packed_entries(*source),
{
    let mut out: Vec<ArchiveEntry> = Vec::new();
    match source {
        SourceTree::File { name, contents } => {
            out.push(ArchiveEntry { name: name.clone(), data: copy_bytes(contents) });
            assert(entries_view(out@) =~= packed_entries(*source));
        },
        SourceTree::Directory { children } => {
            let mut i: usize = 0;
            while i < children.len()
                invariant
                    i <= children@.len(),
                    *source == (SourceTree::Directory { children: *children }),
                    entries_view(out@) == file_children(children@.take(i as int)),
                decreases children.len() - i,
            {
                let c = &children[i];
                assert(children@.take(i + 1).drop_last() == children@.take(i as int));
                match &c.contents {
                    Some(d) => {
                        out.push(ArchiveEntry { name: c.name.clone(), data: copy_bytes(d) });
                    },
                    None => {},
                }
                i += 1;
                assert(entries_view(out@) =~= file_children(children@.take(i as int)));
            }
            assert(children@.take(i as int) == children@);
        },
    }
    out
}

/// The entries that packing `source` writes. Every name must stay below the
/// root it is later extracted into; the first one that does not is reported.
pub fn pack_entries(source: &SourceTree) -> (r: Result<Vec<ArchiveEntry>, ArchiveError>)
    ensures
        r is Ok <==> first_unsafe(packed_entries(*source)) < 0,
        r is Ok ==> entries_view(r->Ok_0@) == packed_entries(*source),
        r is Err ==> names_first_unsafe(r->Err_0, packed_entries(*source)),
{
    let es = collect_entries(source);
    match find_unsafe(&es) {
        Some(k) => {
            proof {
                lemma_first_unsafe_bounds(entries_view(es@));
            }
            Err(ArchiveError::UnsafeEntryName(es[k].name.clone()))
        },
        None => Ok(es),
    }
}

/// Every entry's payload fits in one archive file.
pub open spec fn entries_within_limit(es: Seq<(Seq<char>, Seq<u8>)>) -> bool {
    forall|i: int| 0 <= i < es.len() ==> (#[trigger] es[i]).1.len() <= MAX_ENTRY_BYTES
}

/// The position of the first entry of `entries` whose payload is too large.
pub fn find_too_large(entries: &Vec<ArchiveEntry>) -> (r: Option<usize>)
    ensures
        r is None <==> entries_within_limit(entries_view(entries@)),
        r is Some ==> r->0 < entries@.len() && entries@[r->0 as int].data@.len() > MAX_ENTRY_BYTES,
{
    let ghost v = entries_view(entries@);
    let mut i: usize = 0;
    while i < entries.len()
        invariant
            i <= entries@.len(),
            v == entries_view(entries@),
            forall|j: int| 0 <= j < i ==> (#[trigger] v[j]).1.len() <= MAX_ENTRY_BYTES,
        decreases entries.len() - i,
    {
        if entries[i].data.len() as u64 > MAX_ENTRY_BYTES {
            assert(v[i as int].1.len() > MAX_ENTRY_BYTES);
            return Some(i);
        }
        i += 1;
    }
    None
}

/// The bytes of an archive holding `entries`, in order, each
/// deflate-compressed. An entry whose payload is larger than
/// `MAX_ENTRY_BYTES` is refused before anything is written.
pub fn write_archive(entries: &Vec<ArchiveEntry>) -> (r: Result<Vec<u8>, ArchiveError>)
    ensures
        r is Ok <==> entries_within_limit(entries_view(entries@)),
        r is Ok ==> r->Ok_0@ == archive_image(writer_files(entries_view(entries@))),
        r is Err ==> exists|i: int|
            0 <= i < entries@.len() && (#[trigger] entries@[i]).data@.len() > MAX_ENTRY_BYTES && r->Err_0
                == ArchiveError::EntryTooLarge(entries@[i].name),
{
    let ghost v = entries_view(entries@);
    if let Some(k) = find_too_large(entries) {
        return Err(ArchiveError::EntryTooLarge(entries[k].name.clone()));
    }
    let mut w = new_writer();
    let mut i: usize = 0;
    while i < entries.len()
        invariant
            i <= entries@.len(),
            v == entries_view(entries@),
            v.len() == entries@.len(),
            entries_within_limit(v),
            staged_files(w) == writer_files(v.take(i as int)),
            staged_within_limit(staged_files(w)),
        decreases entries.len() - i,
    {
        let e = &entries[i];
        let ghost before = staged_files(w);
        // Within the size limit neither call can fail.
        let _ = start_deflated_file(&mut w, e.name.as_str());
        assert(chunks_len(Seq::<Seq<u8>>::empty()) == 0);
        assert(v[i as int].1.len() <= MAX_ENTRY_BYTES);
        let _ = write_chunk(&mut w, e.data.as_slice());
        proof {
            let last = seq![e.data@];
            assert(last.drop_last() =~= Seq::<Seq<u8>>::empty());
            assert(chunks_len(last) == e.data@.len());
            assert(Seq::<Seq<u8>>::empty().push(e.data@) =~= last);
        }
        i += 1;
        assert(staged_files(w) =~= writer_files(v.take(i as int)));
        assert forall|j: int| 0 <= j < staged_files(w).len() implies chunks_len(#[trigger] staged_files(w)[j].1)
            <= MAX_ENTRY_BYTES by {
            if j < i - 1 {
                assert(staged_files(w)[j] == before[j]);
            }
        }
    }
    assert(v.take(i as int) == v);
    match finish_writer(w) {
        Ok(bytes) => Ok(bytes),
        Err(err) => Err(ArchiveError::Finalize(zip_error_text(&err))),
    }
}

/// Packs `source` into the bytes of an archive: one deflate-compressed entry
/// per regular file, named by its base name or by its name in the directory,
/// in order. Fails without writing anything where a name is not safe.
pub fn pack(source: &SourceTree) -> (r: Result<Vec<u8>, ArchiveError>)
    ensures
        first_unsafe(packed_entries(*source)) >= 0 ==> r is Err && names_first_unsafe(
            r->Err_0,
            packed_entries(*source),
        ),
        r is Ok <==> first_unsafe(packed_entries(*source)) < 0 && entries_within_limit(
            packed_entries(*source),
        ),
        first_unsafe(packed_entries(*source)) < 0 && r is Err ==> r->Err_0 is EntryTooLarge,
        r is Ok ==> r->Ok_0@ == archive_image(writer_files(packed_entries(*source))),
{
    let es = pack_entries(source)?;
    write_archive(&es)
}

} // verus!
