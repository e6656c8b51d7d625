use zip_archiver::model::{ArchiveEntry, ArchiveError};
use zip_archiver::pack::{collect_entries, pack, pack_entries, write_archive, SourceChild, SourceTree};
use zip_archiver::unpack::{plan_extraction, read_entries, unpack, Step};

fn file(name: &str, contents: &[u8]) -> SourceTree {
    SourceTree::File { name: name.to_string(), contents: contents.to_vec() }
}

fn child(name: &str, contents: Option<&[u8]>) -> SourceChild {
    SourceChild { name: name.to_string(), contents: contents.map(|c| c.to_vec()) }
}

fn entry(name: &str, data: &[u8]) -> ArchiveEntry {
    ArchiveEntry { name: name.to_string(), data: data.to_vec() }
}

fn dir(p: &str) -> Step {
    Step::MakeDir(p.to_string())
}

fn write(p: &str, data: &[u8]) -> Step {
    Step::WriteFile(p.to_string(), data.to_vec())
}

#[test]
fn single_file_round_trip() {
    let bytes = pack(&file("notes.txt", b"some text\n")).unwrap();
    let steps = unpack(bytes, "out").unwrap();
    assert_eq!(steps, vec![dir("out"), dir("out"), write("out/notes.txt", b"some text\n")]);
}

#[test]
fn empty_file_round_trip() {
    let bytes = pack(&file("empty.bin", b"")).unwrap();
    let steps = unpack(bytes, "out").unwrap();
    assert_eq!(steps, vec![dir("out"), dir("out"), write("out/empty.bin", b"")]);
}

#[test]
fn binary_file_round_trip() {
    let data: Vec<u8> = (0..5000u32).map(|i| (i * 7 % 256) as u8).collect();
    let bytes = pack(&file("blob", &data)).unwrap();
    let entries = read_entries(&bytes).unwrap();
    assert_eq!(entries, vec![entry("blob", &data)]);
}

#[test]
fn directory_of_two_files() {
    let src = SourceTree::Directory {
        children: vec![child("a.txt", Some(b"hello")), child("b.txt", Some(b"world"))],
    };
    let bytes = pack(&src).unwrap();
    let steps = unpack(bytes, "dest").unwrap();
    assert_eq!(
        steps,
        vec![dir("dest"), dir("dest"), write("dest/a.txt", b"hello"), dir("dest"), write("dest/b.txt", b"world")]
    );
    let written: Vec<&Step> = steps.iter().filter(|s| matches!(s, Step::WriteFile(..))).collect();
    assert_eq!(written.len(), 2);
}

#[test]
fn subdirectories_are_not_packed() {
    let src = SourceTree::Directory {
        children: vec![child("sub", None), child("x.txt", Some(b"x")), child("other", None)],
    };
    let entries = collect_entries(&src);
    assert_eq!(entries, vec![entry("x.txt", b"x")]);
    let bytes = pack(&src).unwrap();
    assert_eq!(read_entries(&bytes).unwrap(), vec![entry("x.txt", b"x")]);
}

#[test]
fn empty_directory_packs_to_empty_archive() {
    let src = SourceTree::Directory { children: vec![] };
    let bytes = pack(&src).unwrap();
    assert!(!bytes.is_empty());
    assert_eq!(read_entries(&bytes).unwrap(), vec![]);
    assert_eq!(unpack(bytes, "d").unwrap(), vec![dir("d")]);
}

#[test]
fn archive_is_deflated_zip() {
    let data = vec![b'a'; 10000];
    let bytes = write_archive(&vec![entry("a", &data)]).unwrap();
    assert_eq!(&bytes[0..4], b"PK\x03\x04");
    assert!(bytes.len() < data.len());
    // compression method field of the local header: 8 is deflate
    assert_eq!(bytes[8], 8);
}

#[test]
fn unpack_twice_gives_same_steps() {
    let src = SourceTree::Directory {
        children: vec![child("a.txt", Some(b"1")), child("b.txt", Some(b"2"))],
    };
    let bytes = pack(&src).unwrap();
    let first = unpack(bytes.clone(), "d").unwrap();
    let second = unpack(bytes, "d").unwrap();
    assert_eq!(first, second);
}

#[test]
fn nested_names_make_their_directories() {
    let steps = plan_extraction("out", &vec![entry("a/b/c.txt", b"deep")]).unwrap();
    assert_eq!(steps, vec![dir("out"), dir("out/a/b"), write("out/a/b/c.txt", b"deep")]);
}

#[test]
fn directory_markers_make_directories_only() {
    let steps = plan_extraction("out", &vec![entry("d/", b""), entry("d/e/", b"")]).unwrap();
    assert_eq!(steps, vec![dir("out"), dir("out/d/"), dir("out/d/e/")]);
}

#[test]
fn root_with_trailing_slash_or_empty() {
    let es = vec![entry("f", b"1")];
    assert_eq!(plan_extraction("out/", &es).unwrap(), vec![dir("out/"), dir("out/"), write("out/f", b"1")]);
    assert_eq!(plan_extraction("", &es).unwrap(), vec![dir(""), dir(""), write("f", b"1")]);
}

#[test]
fn garbage_is_a_format_error() {
    let r = unpack(b"this is not an archive at all".to_vec(), "out");
    assert!(matches!(r, Err(ArchiveError::Format(_))));
    assert!(matches!(unpack(vec![], "out"), Err(ArchiveError::Format(_))));
    match unpack(b"PK no directory here".to_vec(), "out") {
        Err(ArchiveError::Format(m)) => assert!(!m.is_empty()),
        other => panic!("expected a format error, got {:?}", other),
    }
}

#[test]
fn truncated_archive_is_a_format_error() {
    let bytes = pack(&file("a.txt", b"hello hello hello")).unwrap();
    let cut = bytes[..bytes.len() / 2].to_vec();
    assert!(matches!(unpack(cut, "out"), Err(ArchiveError::Format(_))));
}

#[test]
fn unsafe_names_are_refused_on_unpack() {
    for bad in ["../x", "/etc/passwd", "a/../../b", "", "..", "a/.."] {
        let r = plan_extraction("out", &vec![entry("ok.txt", b"1"), entry(bad, b"2")]);
        assert_eq!(r, Err(ArchiveError::UnsafeEntryName(bad.to_string())));
    }
}

#[test]
fn unsafe_name_is_refused_on_pack() {
    let src = SourceTree::Directory {
        children: vec![child("fine", Some(b"1")), child("../up", Some(b"2")), child("/abs", Some(b"3"))],
    };
    assert_eq!(pack_entries(&src), Err(ArchiveError::UnsafeEntryName("../up".to_string())));
    assert_eq!(pack(&src), Err(ArchiveError::UnsafeEntryName("../up".to_string())));
}

#[test]
fn unsafe_directory_child_is_skipped_not_refused() {
    let src = SourceTree::Directory { children: vec![child("..", None), child("k", Some(b"v"))] };
    assert_eq!(pack_entries(&src), Ok(vec![entry("k", b"v")]));
}

fn le16(v: &mut Vec<u8>, x: u16) {
    v.extend_from_slice(&x.to_le_bytes());
}

fn le32(v: &mut Vec<u8>, x: u32) {
    v.extend_from_slice(&x.to_le_bytes());
}

/// One empty stored entry named "a" whose central header carries an AES
/// extra field while its encryption flag is clear.
fn archive_with_aes_field() -> Vec<u8> {
    let mut v = Vec::new();
    le32(&mut v, 0x04034b50);
    for x in [20u16, 0, 0, 0, 0] {
        le16(&mut v, x);
    }
    for _ in 0..3 {
        le32(&mut v, 0);
    }
    le16(&mut v, 1);
    le16(&mut v, 0);
    v.push(b'a');
    let cd_start = v.len() as u32;
    le32(&mut v, 0x02014b50);
    for x in [20u16, 20, 0, 0, 0, 0] {
        le16(&mut v, x);
    }
    for _ in 0..3 {
        le32(&mut v, 0);
    }
    for x in [1u16, 11, 0, 0, 0] {
        le16(&mut v, x);
    }
    le32(&mut v, 0);
    le32(&mut v, 0);
    v.push(b'a');
    for x in [0x9901u16, 7, 1, 0x4541] {
        le16(&mut v, x);
    }
    v.push(1);
    le16(&mut v, 0);
    let cd_size = v.len() as u32 - cd_start;
    le32(&mut v, 0x06054b50);
    for x in [0u16, 0, 1, 1] {
        le16(&mut v, x);
    }
    le32(&mut v, cd_size);
    le32(&mut v, cd_start);
    le16(&mut v, 0);
    v
}

#[test]
fn entry_asking_for_a_password_is_a_format_error() {
    let r = unpack(archive_with_aes_field(), "out");
    assert!(matches!(r, Err(ArchiveError::Format(_))), "{:?}", r);
}

#[test]
fn corrupt_payload_is_a_format_error() {
    let mut bytes = pack(&file("a.txt", b"hello hello hello hello")).unwrap();
    // the payload starts after the 30-byte local header and the 5-byte name
    bytes[36] ^= 0xff;
    bytes[37] ^= 0xff;
    assert!(matches!(unpack(bytes, "out"), Err(ArchiveError::Format(_))));
}
