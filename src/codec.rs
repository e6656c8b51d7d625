use vstd::prelude::*;
use std::io::Cursor;
use zip::result::ZipError;
use zip::write::FileOptions;
use zip::CompressionMethod;
use zip::ZipArchive;
use zip::ZipWriter;

verus! {

#[verifier::external_type_specification]
#[verifier::external_body]
#[verifier::reject_recursive_types(T)]
pub struct ExCursor<T>(Cursor<T>);

/// An archive being written into an in-memory buffer. Verus refuses a
/// declaration of `ZipWriter` itself, whose parameter is bound by std's
/// `Write` and `Seek`, so the writer is held here, out of Verus's sight.
#[verifier::external_body]
pub struct ArchiveWriter {
    inner: ZipWriter<Cursor<Vec<u8>>>,
}

#[verifier::external_type_specification]
#[verifier::external_body]
#[verifier::reject_recursive_types(R)]
pub struct ExZipArchive<R>(ZipArchive<R>);

#[verifier::external_type_specification]
#[verifier::external_body]
pub struct ExZipError(ZipError);

/// The largest payload, in bytes, that one file of an archive may hold here:
/// far enough below 4 GiB that neither its size nor its deflated size needs
/// the zip64 extension, which the writer is not asked for.
pub const MAX_ENTRY_BYTES: u64 = 2147483648;

/// The calls made so far on an in-memory archive writer: for each file
/// started, its name and the chunks of payload written to it, in order.
pub uninterp spec fn staged_files(w: ArchiveWriter) -> Seq<(Seq<char>, Seq<Seq<u8>>)>;

/// The bytes of the archive that a fresh writer produces when it is handed
/// these files and chunks, each file deflate-compressed, and then finished.
pub uninterp spec fn archive_image(files: Seq<(Seq<char>, Seq<Seq<u8>>)>) -> Seq<u8>;

/// Whether an archive can be opened from these bytes: its end record and
/// central directory are found and parsed.
pub uninterp spec fn archive_opens(bytes: Seq<u8>) -> bool;

/// What an opened archive lists, in stored order: for each entry, its name
/// and its decompressed payload where the entry reads whole (its header,
/// its compressed stream and its checksum all hold), and `None` where not.
/// An encrypted entry is tried with an empty password.
pub uninterp spec fn archive_listing(a: ZipArchive<Cursor<Vec<u8>>>) -> Seq<Option<(Seq<char>, Seq<u8>)>>;

/// What the archive held in these bytes lists, once opened.
pub uninterp spec fn parsed_listing(bytes: Seq<u8>) -> Seq<Option<(Seq<char>, Seq<u8>)>>;

/// The number of payload bytes in `chunks`.
pub open spec fn chunks_len(chunks: Seq<Seq<u8>>) -> int
    decreases chunks.len(),
{
    if chunks.len() == 0 {
        0
    } else {
        chunks_len(chunks.drop_last()) + chunks.last().len()
    }
}

/// Every staged file holds at most `MAX_ENTRY_BYTES` bytes.
pub open spec fn staged_within_limit(files: Seq<(Seq<char>, Seq<Seq<u8>>)>) -> bool {
    forall|i: int| 0 <= i < files.len() ==> chunks_len(#[trigger] files[i].1) <= MAX_ENTRY_BYTES
}

/// Relies on `ZipWriter::new`: a writer over an empty in-memory buffer, with
/// no file started yet.
#[verifier::external_body]
pub(crate) fn new_writer() -> (w: ArchiveWriter)
    ensures
        staged_files(w) == Seq::<(Seq<char>, Seq<Seq<u8>>)>::empty(),
{
    ArchiveWriter { inner: ZipWriter::new(Cursor::new(Vec::new())) }
}

/// Relies on `ZipWriter::start_file`: the file started before is finished
/// and a new deflate-compressed file of that name is started, and later
/// writes go to it. Over an in-memory buffer this fails only where a
/// finished file's size needs zip64, which the limit rules out.
#[verifier::external_body]
pub(crate) fn start_deflated_file(w: &mut ArchiveWriter, name: &str) -> (r: Result<(), ZipError>)
    requires
        staged_within_limit(staged_files(*old(w))),
    ensures
        r is Ok,
        staged_files(*final(w)) == staged_files(*old(w)).push((name@, Seq::<Seq<u8>>::empty())),
{
    w.inner.start_file(name, FileOptions::default().compression_method(CompressionMethod::Deflated))
}

/// Relies on `Write::write_all` of `ZipWriter`: the whole chunk is appended
/// to the payload of the file started last. It fails only where that file
/// grows past 4 GiB, which the limit rules out.
#[verifier::external_body]
pub(crate) fn write_chunk(w: &mut ArchiveWriter, data: &[u8]) -> (r: Result<(), ZipError>)
    requires
        staged_files(*old(w)).len() > 0,
        staged_within_limit(staged_files(*old(w))),
        chunks_len(staged_files(*old(w)).last().1) + data@.len() <= MAX_ENTRY_BYTES,
    ensures
        r is Ok,
        staged_files(*final(w)) == staged_files(*old(w)).update(
            staged_files(*old(w)).len() - 1,
            (staged_files(*old(w)).last().0, staged_files(*old(w)).last().1.push(data@)),
        ),
{
    std::io::Write::write_all(&mut w.inner, data).map_err(ZipError::from)
}

/// Relies on `ZipWriter::finish`: the last file is finished, the central
/// directory is written and the finished archive's bytes are handed back.
/// Over an in-memory buffer this fails only where a file's size needs zip64,
/// which the limit rules out.
#[verifier::external_body]
pub(crate) fn finish_writer(w: ArchiveWriter) -> (r: Result<Vec<u8>, ZipError>)
    requires
        staged_within_limit(staged_files(w)),
    ensures
        r is Ok,
        r->Ok_0@ == archive_image(staged_files(w)),
{
    let mut inner = w.inner;
    inner.finish().map(|c| c.into_inner())
}

/// Relies on `ZipArchive::new`: the archive's central directory is read from
/// the bytes, and whether that succeeds depends on the bytes alone.
#[verifier::external_body]
pub(crate) fn open_archive(bytes: Vec<u8>) -> (r: Result<ZipArchive<Cursor<Vec<u8>>>, ZipError>)
    ensures
        (r is Ok) == archive_opens(bytes@),
        r is Ok ==> archive_listing(r->Ok_0) == parsed_listing(bytes@),
{
    ZipArchive::new(Cursor::new(bytes))
}

/// Relies on `ZipArchive::len`: the number of entries listed.
#[verifier::external_body]
pub(crate) fn entry_count(a: &ZipArchive<Cursor<Vec<u8>>>) -> (n: usize)
    ensures
        n == archive_listing(*a).len(),
{
    a.len()
}

/// Relies on `ZipArchive::by_index_decrypt`: the entry at `i`, read out as
/// its name and its whole decompressed payload. It is reached with an empty
/// password, so that an entry that asks for one is reported rather than
/// unwrapped, as `by_index` does; an entry that is not encrypted ignores it.
/// The listing is unchanged.
#[verifier::external_body]
pub(crate) fn read_entry(a: &mut ZipArchive<Cursor<Vec<u8>>>, i: usize) -> (r: Result<(String, Vec<u8>), ZipError>)
    requires
        i < archive_listing(*old(a)).len(),
    ensures
        archive_listing(*final(a)) == archive_listing(*old(a)),
        (r is Ok) == (archive_listing(*old(a))[i as int] is Some),
        r is Ok ==> (r->Ok_0.0@, r->Ok_0.1@) == archive_listing(*old(a))[i as int]->0,
{
    let mut f = match a.by_index_decrypt(i, b"")? {
        Ok(f) => f,
        Err(_) => return Err(ZipError::UnsupportedArchive(ZipError::PASSWORD_REQUIRED)),
    };
    let mut data = Vec::new();
    std::io::Read::read_to_end(&mut f, &mut data)?;
    Ok((f.name().to_string(), data))
}

/// Relies on `ZipError`'s `Display`: a readable description of the error.
#[verifier::external_body]
pub(crate) fn zip_error_text(e: &ZipError) -> (r: String) {
    e.to_string()
}

} // verus!
