use vfs::FileSystem;
use vfs::MemoryFS;
use vfs::VFileType;
use vfs::VPath;
use vfs::VfsError;

fn fresh() -> (VPath, FileSystem<MemoryFS>) {
    VPath::create(MemoryFS::new()).unwrap()
}

fn is_not_found(e: &VfsError) -> bool {
    matches!(e.root_cause(), VfsError::FileNotFound { .. })
}

fn is_other(e: &VfsError) -> bool {
    matches!(e.root_cause(), VfsError::Other { .. })
}

fn last_segment(p: &VPath) -> String {
    let s = p.path().to_string();
    s.rsplit('/').next().unwrap().to_string()
}

#[test]
fn never_created_path_reports_not_found() {
    let (root, mut fs) = fresh();
    let p = root.join("never");
    assert!(!p.path_exists(&fs));
    assert!(is_not_found(&p.open_file(&fs).unwrap_err()));
    assert!(is_not_found(&p.metadata(&fs).unwrap_err()));
    assert!(is_not_found(&p.remove_file(&mut fs).unwrap_err()));
    assert!(is_not_found(&p.remove_dir(&mut fs).unwrap_err()));
}

#[test]
fn create_dir_all_is_idempotent() {
    let (root, mut fs) = fresh();
    let c = root.join("a").join("b").join("c");
    c.create_dir_all(&mut fs).unwrap();
    c.create_dir_all(&mut fs).unwrap();
    assert!(root.join("a").path_exists(&fs));
    assert!(root.join("a").join("b").path_exists(&fs));
    assert!(c.path_exists(&fs));
    let kids = root.join("a").read_dir(&fs).unwrap();
    assert_eq!(kids.len(), 1);
    assert_eq!(last_segment(&kids[0]), "b");
}

#[test]
fn remove_dir_all_on_missing_path_is_a_no_op() {
    let (root, mut fs) = fresh();
    let p = root.join("ghost");
    p.remove_dir_all(&mut fs).unwrap();
    assert!(!p.path_exists(&fs));
    assert_eq!(root.read_dir(&fs).unwrap().len(), 0);
}

#[test]
fn write_then_read_round_trip() {
    let (root, mut fs) = fresh();
    let p = root.join("data.bin");
    let mut w = p.create_file(&mut fs).unwrap();
    assert_eq!(w.write(&mut fs, b"some bytes").unwrap(), 10);
    let mut r = p.open_file(&fs).unwrap();
    assert_eq!(r.read_to_end(), b"some bytes".to_vec());
}

#[test]
fn reader_keeps_its_snapshot_across_later_writes() {
    let (root, mut fs) = fresh();
    let p = root.join("shared.txt");
    let mut w = p.create_file(&mut fs).unwrap();
    w.write(&mut fs, b"old content").unwrap();
    let mut r = p.open_file(&fs).unwrap();
    let mut w2 = p.create_file(&mut fs).unwrap();
    w2.write(&mut fs, b"NEW").unwrap();
    assert_eq!(r.read_to_end(), b"old content".to_vec());
    let mut r2 = p.open_file(&fs).unwrap();
    assert_eq!(r2.read_to_end(), b"NEW".to_vec());
}

#[test]
fn read_dir_yields_exactly_the_child_names() {
    let (root, mut fs) = fresh();
    let d = root.join("dir");
    d.create_dir(&mut fs).unwrap();
    d.join("x").create_dir(&mut fs).unwrap();
    d.join("y").create_dir(&mut fs).unwrap();
    let mut names: Vec<String> = d.read_dir(&fs).unwrap().iter().map(last_segment).collect();
    names.sort();
    assert_eq!(names, vec!["x".to_string(), "y".to_string()]);
}

#[test]
fn remove_dir_fails_while_non_empty_then_succeeds() {
    let (root, mut fs) = fresh();
    let d = root.join("d");
    d.create_dir(&mut fs).unwrap();
    d.join("inner").create_dir(&mut fs).unwrap();
    let e = d.remove_dir(&mut fs).unwrap_err();
    assert!(is_other(&e));
    d.join("inner").remove_dir(&mut fs).unwrap();
    d.remove_dir(&mut fs).unwrap();
    assert!(!d.path_exists(&fs));
}

#[test]
fn recursive_create_builds_every_ancestor() {
    let (root, mut fs) = fresh();
    root.join("a").join("b").join("c").create_dir_all(&mut fs).unwrap();
    assert!(root.join("a").path_exists(&fs));
    assert!(root.join("a").join("b").path_exists(&fs));
    assert!(root.join("a").join("b").join("c").path_exists(&fs));
    let md = root.join("a").join("b").join("c").metadata(&fs).unwrap();
    assert_eq!(md.file_type, VFileType::Directory);
    assert_eq!(md.len, 0);
}

#[test]
fn file_in_nested_directory_round_trips() {
    let (root, mut fs) = fresh();
    root.join("a").join("b").join("c").create_dir_all(&mut fs).unwrap();
    let note = root.join("a").join("b").join("c").join("note.txt");
    let mut w = note.create_file(&mut fs).unwrap();
    w.write(&mut fs, b"hello").unwrap();
    let mut r = note.open_file(&fs).unwrap();
    assert_eq!(r.read_to_end(), b"hello".to_vec());
    let md = note.metadata(&fs).unwrap();
    assert_eq!(md.file_type, VFileType::File);
    assert_eq!(md.len, 5);
}

#[test]
fn recursive_removal_deletes_the_whole_subtree() {
    let (root, mut fs) = fresh();
    root.join("a").join("b").join("c").create_dir_all(&mut fs).unwrap();
    let note = root.join("a").join("b").join("c").join("note.txt");
    let mut w = note.create_file(&mut fs).unwrap();
    w.write(&mut fs, b"hello").unwrap();
    root.join("a").remove_dir_all(&mut fs).unwrap();
    assert!(!root.join("a").path_exists(&fs));
    assert!(!note.path_exists(&fs));
    assert!(root.path_exists(&fs));
}

#[test]
fn open_error_renders_context_and_root_cause() {
    let (root, fs) = fresh();
    let e = root.join("missing").join("path").open_file(&fs).unwrap_err();
    let text = e.message();
    assert_eq!(
        text,
        "Could not open file '/missing/path', cause: the file or directory `missing/path` could not be found"
    );
    assert!(is_not_found(&e));
}

#[test]
fn append_extends_existing_content() {
    let (root, mut fs) = fresh();
    let p = root.join("log.txt");
    let mut w = p.create_file(&mut fs).unwrap();
    w.write(&mut fs, b"one").unwrap();
    let mut a = p.append_file(&mut fs).unwrap();
    a.write(&mut fs, b"-two").unwrap();
    let mut r = p.open_file(&fs).unwrap();
    assert_eq!(r.read_to_end(), b"one-two".to_vec());
}

#[test]
fn append_creates_a_missing_file() {
    let (root, mut fs) = fresh();
    let p = root.join("new.txt");
    let mut a = p.append_file(&mut fs).unwrap();
    a.write(&mut fs, b"first").unwrap();
    let mut r = p.open_file(&fs).unwrap();
    assert_eq!(r.read_to_end(), b"first".to_vec());
}

#[test]
fn create_truncates_existing_content() {
    let (root, mut fs) = fresh();
    let p = root.join("t.txt");
    let mut w = p.create_file(&mut fs).unwrap();
    w.write(&mut fs, b"a very long line").unwrap();
    let mut w2 = p.create_file(&mut fs).unwrap();
    w2.write(&mut fs, b"short").unwrap();
    let mut r = p.open_file(&fs).unwrap();
    assert_eq!(r.read_to_end(), b"short".to_vec());
}

#[test]
fn successive_writes_continue_at_the_cursor() {
    let (root, mut fs) = fresh();
    let p = root.join("w.txt");
    let mut w = p.create_file(&mut fs).unwrap();
    w.write(&mut fs, b"he").unwrap();
    w.write(&mut fs, b"llo").unwrap();
    let mut r = p.open_file(&fs).unwrap();
    assert_eq!(r.read_to_end(), b"hello".to_vec());
}

#[test]
fn seek_moves_the_read_cursor_and_clamps() {
    let (root, mut fs) = fresh();
    let p = root.join("s.txt");
    let mut w = p.create_file(&mut fs).unwrap();
    w.write(&mut fs, b"abcdef").unwrap();
    let mut r = p.open_file(&fs).unwrap();
    assert_eq!(r.seek(2), 2);
    assert_eq!(r.read_to_end(), b"cdef".to_vec());
    assert_eq!(r.seek(100), 6);
    assert_eq!(r.read_to_end(), b"".to_vec());
    assert_eq!(r.snapshot_len(), 6);
}

#[test]
fn create_dir_on_existing_path_fails_with_other() {
    let (root, mut fs) = fresh();
    let d = root.join("dup");
    d.create_dir(&mut fs).unwrap();
    let e = d.create_dir(&mut fs).unwrap_err();
    assert!(is_other(&e));
    assert!(e.message().contains("Could not create directory '/dup', cause: other VFS error: path already exists"));
}

#[test]
fn create_dir_under_missing_parent_fails_with_not_found() {
    let (root, mut fs) = fresh();
    let e = root.join("no").join("deep").create_dir(&mut fs).unwrap_err();
    assert!(is_not_found(&e));
    match e.root_cause() {
        VfsError::FileNotFound { path } => assert_eq!(path, "no"),
        _ => panic!("expected FileNotFound"),
    }
}

#[test]
fn create_file_on_directory_fails_with_other() {
    let (root, mut fs) = fresh();
    let d = root.join("d");
    d.create_dir(&mut fs).unwrap();
    let e = d.create_file(&mut fs).unwrap_err();
    assert!(is_other(&e));
    let e2 = d.open_file(&fs).unwrap_err();
    assert!(is_not_found(&e2));
}

#[test]
fn read_dir_on_file_fails_with_not_found() {
    let (root, mut fs) = fresh();
    let p = root.join("f.txt");
    p.create_file(&mut fs).unwrap();
    let e = p.read_dir(&fs).unwrap_err();
    assert!(is_not_found(&e));
    assert!(e.message().contains("Could not read directory '/f.txt'"));
}

#[test]
fn remove_file_on_directory_fails_with_other() {
    let (root, mut fs) = fresh();
    let d = root.join("d");
    d.create_dir(&mut fs).unwrap();
    assert!(is_other(&d.remove_file(&mut fs).unwrap_err()));
    let f = root.join("f");
    f.create_file(&mut fs).unwrap();
    assert!(is_other(&f.remove_dir(&mut fs).unwrap_err()));
}

#[test]
fn remove_dir_all_on_root_empties_but_keeps_the_root() {
    let (root, mut fs) = fresh();
    root.join("a").join("b").create_dir_all(&mut fs).unwrap();
    let e = root.remove_dir_all(&mut fs).unwrap_err();
    assert!(is_other(&e));
    assert!(root.path_exists(&fs));
    assert!(!root.join("a").path_exists(&fs));
    assert_eq!(root.read_dir(&fs).unwrap().len(), 0);
}

#[test]
fn remove_dir_all_on_file_fails() {
    let (root, mut fs) = fresh();
    let p = root.join("plain.txt");
    p.create_file(&mut fs).unwrap();
    let e = p.remove_dir_all(&mut fs).unwrap_err();
    assert!(is_not_found(&e));
    assert!(p.path_exists(&fs));
}

#[test]
fn join_builds_slash_separated_paths() {
    let (root, _fs) = fresh();
    assert_eq!(root.path(), "");
    assert_eq!(root.join("a").path(), "/a");
    assert_eq!(root.join("a").join("b").path(), "/a/b");
    assert_eq!(root.join("a/b").path(), "/a/b");
}

#[test]
fn multi_segment_join_resolves_like_nested_joins() {
    let (root, mut fs) = fresh();
    root.join("x/y").create_dir_all(&mut fs).unwrap();
    assert!(root.join("x").join("y").path_exists(&fs));
}

#[test]
fn create_dir_all_stops_at_a_file_in_the_way() {
    let (root, mut fs) = fresh();
    let f = root.join("blocker");
    f.create_file(&mut fs).unwrap();
    let e = f.join("below").create_dir_all(&mut fs).unwrap_err();
    assert!(matches!(e, VfsError::FileNotFound { .. }));
}
