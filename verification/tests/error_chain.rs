use vfs::ResultExt;
use vfs::VfsError;

#[test]
fn with_context_leaves_a_success_untouched() {
    let ok: Result<u32, VfsError> = Ok(7);
    assert!(matches!(ok.with_context("ignored".to_string()), Ok(7)));
}

#[test]
fn with_context_wraps_a_failure_and_keeps_the_cause() {
    let r: Result<u32, VfsError> =
        Err(VfsError::IoError { message: "disk detached".to_string() });
    let e = r.with_context("reading config".to_string()).unwrap_err();
    assert_eq!(e.message(), "reading config, cause: disk detached");
    assert!(matches!(e.root_cause(), VfsError::IoError { .. }));
}

#[test]
fn a_chain_renders_outermost_first_down_to_the_leaf() {
    let inner: Result<u32, VfsError> =
        Err(VfsError::FileNotFound { path: "a/b".to_string() });
    let mid = inner.with_context("opening the note".to_string()).unwrap_err();
    let outer = Err::<u32, VfsError>(mid).with_context("loading the page".to_string()).unwrap_err();
    assert_eq!(
        outer.message(),
        "loading the page, cause: opening the note, cause: the file or directory `a/b` could not be found"
    );
    match outer.root_cause() {
        VfsError::FileNotFound { path } => assert_eq!(path, "a/b"),
        _ => panic!("expected FileNotFound at the root"),
    }
}

#[test]
fn leaf_messages_render_their_own_text() {
    let other = VfsError::Other { message: "directory is not empty".to_string() };
    assert_eq!(other.message(), "other VFS error: directory is not empty");
    let nf = VfsError::FileNotFound { path: "x".to_string() };
    assert_eq!(nf.message(), "the file or directory `x` could not be found");
}
