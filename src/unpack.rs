use vstd::prelude::*;
use crate::codec::{
    archive_listing, archive_opens, entry_count, open_archive, parsed_listing, read_entry, zip_error_text,
};
use crate::model::{
    copy_bytes, entries_view, find_unsafe, first_unsafe, lemma_first_unsafe_bounds, names_first_unsafe,
    ArchiveEntry, ArchiveError,
};
use crate::names::{
    chars_of, ends_with_slash, join_chars, joined, names_directory, parent_of, parent_path, string_of,
};

verus! {

/// One filesystem step of an extraction, in terms of paths.
#[derive(Clone, Debug, PartialEq, Eq)]
pub enum Step {
    /// Create the directory, and any missing ancestors; an existing one is
    /// kept.
    MakeDir(String),
    /// Create or overwrite the file with exactly these bytes.
    WriteFile(String, Vec<u8>),
}

/// A step, with its path as characters.
pub enum StepView {
    MakeDir(Seq<char>),
    WriteFile(Seq<char>, Seq<u8>),
}

impl View for Step {
    type V = StepView;

    open spec fn view(&self) -> StepView {
        match self {
            Step::MakeDir(p) => StepView::MakeDir(p@),
            Step::WriteFile(p, d) => StepView::WriteFile(p@, d@),
        }
    }
}

pub open spec fn steps_view(s: Seq<Step>) -> Seq<StepView> {
    s.map_values(|x: Step| x@)
}

/// The steps that place entry `e` below `root`: a directory marker makes its
/// directory; a file makes the directory that holds it, then is written.
pub open spec fn entry_steps(root: Seq<char>, e: (Seq<char>, Seq<u8>)) -> Seq<StepView> {
    if ends_with_slash(e.0) {
        seq![StepView::MakeDir(joined(root, e.0))]
    } else {
        seq![StepView::MakeDir(parent_path(root, e.0)), StepView::WriteFile(joined(root, e.0), e.1)]
    }
}

/// The steps that extract `es` below `root`: the root is made first, then
/// each entry is placed in stored order.
pub open spec fn plan_of(root: Seq<char>, es: Seq<(Seq<char>, Seq<u8>)>) -> Seq<StepView>
    decreases es.len(),
{
    if es.len() == 0 {
        seq![StepView::MakeDir(root)]
    } else {
        plan_of(root, es.drop_last()) + entry_steps(root, es.last())
    }
}

/// The steps that extract `entries` below `output_dir`. No step is planned
/// where a name is not safe: the first such name is reported.
pub fn plan_extraction(output_dir: &str, entries: &Vec<ArchiveEntry>) -> (r: Result<Vec<Step>, ArchiveError>)
    ensures
        r is Ok <==> first_unsafe(entries_view(entries@)) < 0,
        r is Ok ==> steps_view(r->Ok_0@) == plan_of(output_dir@, entries_view(entries@)),
        r is Err ==> names_first_unsafe(r->Err_0, entries_view(entries@)),
{
    let ghost v = entries_view(entries@);
    if let Some(k) = find_unsafe(entries) {
        proof {
            lemma_first_unsafe_bounds(v);
        }
        return Err(ArchiveError::UnsafeEntryName(entries[k].name.clone()));
    }
    let root = chars_of(output_dir);
    let mut steps: Vec<Step> = Vec::new();
    steps.push(Step::MakeDir(string_of(&root)));
    assert(steps_view(steps@) =~= plan_of(output_dir@, v.take(0)));
    let mut i: usize = 0;
    while i < entries.len()
        invariant
            i <= entries@.len(),
            v == entries_view(entries@),
            v.len() == entries@.len(),
            root@ == output_dir@,
            steps_view(steps@) == plan_of(output_dir@, v.take(i as int)),
        decreases entries.len() - i,
    {
        let e = &entries[i];
        let name = chars_of(e.name.as_str());
        let path = string_of(&join_chars(&root, &name));
        if names_directory(&name) {
            steps.push(Step::MakeDir(path));
        } else {
            steps.push(Step::MakeDir(string_of(&parent_of(&root, &name))));
            steps.push(Step::WriteFile(path, copy_bytes(&e.data)));
        }
        assert(v.take(i + 1).drop_last() == v.take(i as int));
        i += 1;
        assert(steps_view(steps@) =~= plan_of(output_dir@, v.take(i as int)));
    }
    assert(v.take(i as int) == v);
    Ok(steps)
}

/// Whether the archive held in `bytes` opens and every entry it lists reads
/// whole.
pub open spec fn reads_whole(bytes: Seq<u8>) -> bool {
    &&& archive_opens(bytes)
    &&& forall|i: int| 0 <= i < parsed_listing(bytes).len() ==> (#[trigger] parsed_listing(bytes)[i]) is Some
}

/// The entries that the archive held in `bytes` lists, each with its
/// payload, where it reads whole.
pub open spec fn listed_entries(bytes: Seq<u8>) -> Seq<(Seq<char>, Seq<u8>)> {
    parsed_listing(bytes).map_values(|o: Option<(Seq<char>, Seq<u8>)>| o->0)
}

/// The entries of the archive held in `archive`, in stored order, each with
/// its decompressed payload. A malformed or truncated archive, or an entry
/// that cannot be read whole, is a format error.
pub fn read_entries(archive: &Vec<u8>) -> (r: Result<Vec<ArchiveEntry>, ArchiveError>)
    ensures
        r is Ok <==> reads_whole(archive@),
        r is Ok ==> entries_view(r->Ok_0@) == listed_entries(archive@),
        r is Err ==> r->Err_0 is Format,
{
    let ghost bytes = archive@;
    let mut a = match open_archive(copy_bytes(archive)) {
        Ok(a) => a,
        Err(err) => {
            return Err(ArchiveError::Format(zip_error_text(&err)));
        },
    };
    let ghost listing = parsed_listing(bytes);
    let n = entry_count(&a);
    let mut out: Vec<ArchiveEntry> = Vec::new();
    let mut i: usize = 0;
    while i < n
        invariant
            i <= n,
            bytes == archive@,
            archive_opens(bytes),
            listing == parsed_listing(bytes),
            n == archive_listing(a).len(),
            archive_listing(a) == listing,
            forall|j: int| 0 <= j < i ==> (#[trigger] listing[j]) is Some,
            entries_view(out@) == listed_entries(bytes).take(i as int),
        decreases n - i,
    {
        let res = read_entry(&mut a, i);
        match res {
            Ok(pair) => {
                let (name, data) = pair;
                let ghost prev = out@;
                out.push(ArchiveEntry { name, data });
                assert(entries_view(out@) =~= entries_view(prev).push(listed_entries(bytes)[i as int]));
            },
            Err(err) => {
                assert(listing[i as int] is None);
                assert(!reads_whole(bytes));
                return Err(ArchiveError::Format(zip_error_text(&err)));
            },
        }
        i += 1;
        assert(listed_entries(bytes).take(i as int) =~= listed_entries(bytes).take(i - 1).push(
            listed_entries(bytes)[i - 1],
        ));
    }
    assert(listed_entries(bytes).take(i as int) =~= listed_entries(bytes));
    Ok(out)
}

/// Unpacks the archive held in `archive` into the steps that place its
/// entries below `output_dir`. Every entry is read, and every name checked,
/// before any step is handed back, so a failure leaves nothing half done.
pub fn unpack(archive: Vec<u8>, output_dir: &str) -> (r: Result<Vec<Step>, ArchiveError>)
    ensures
        r is Ok <==> reads_whole(archive@) && first_unsafe(listed_entries(archive@)) < 0,
        r is Ok ==> steps_view(r->Ok_0@) == plan_of(output_dir@, listed_entries(archive@)),
        !reads_whole(archive@) ==> r is Err && r->Err_0 is Format,
        reads_whole(archive@) && r is Err ==> names_first_unsafe(r->Err_0, listed_entries(archive@)),
{
    let es = read_entries(&archive)?;
    plan_extraction(output_dir, &es)
}

} // verus!
