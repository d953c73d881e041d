//! The error taxonomy and its context-chaining mechanism.
//!
//! An error is either a leaf (an I/O failure, a missing path, or a generic
//! message) or a context frame layered over a preceding error.  Context
//! frames never discard the underlying cause: the whole chain renders
//! outermost-first as `"{context}, cause: {cause}"`, bottoming out at the
//! leaf's own message.

use vstd::prelude::*;

verus! {

/// The closed set of failures a filesystem operation can report.
#[derive(Debug)]
pub enum VfsError {
    /// An opaque I/O failure reported by a backend, with its description.
    IoError { message: String },
    /// A path did not exist where existence was required.
    FileNotFound { path: String },
    /// A backend-specific condition not otherwise classified
    /// (for example, removing a non-empty directory).
    Other { message: String },
    /// A human-readable description layered over a preceding error,
    /// preserving the cause for introspection and display.
    WithContext { context: String, cause: Box<VfsError> },
}

/// The rendered message of an error: context frames print outermost-first,
/// each as `"{context}, cause: {cause}"`.
pub open spec fn message_of(e: VfsError) -> Seq<char>
    decreases e,
{
    match e {
        VfsError::IoError { message } => message@,
        VfsError::FileNotFound { path } => "the file or directory `"@ + path@
            + "` could not be found"@,
        VfsError::Other { message } => "other VFS error: "@ + message@,
        VfsError::WithContext { context, cause } => context@ + ", cause: "@ + message_of(*cause),
    }
}

/// The innermost error of a context chain.
pub open spec fn root_cause_of(e: VfsError) -> VfsError
    decreases e,
{
    match e {
        VfsError::WithContext { context, cause } => root_cause_of(*cause),
        _ => e,
    }
}

impl VfsError {
    /// Render the full context chain as text.
    pub fn message(&self) -> (r: String)
        ensures
            r@ == message_of(*self),
        decreases *self,
    {
        match self {
            VfsError::IoError { message } => message.clone(),
            VfsError::FileNotFound { path } => {
                let mut s = String::from_str("the file or directory `");
                s.append(path.as_str());
                s.append("` could not be found");
                s
            },
            VfsError::Other { message } => {
                let mut s = String::from_str("other VFS error: ");
                s.append(message.as_str());
                s
            },
            VfsError::WithContext { context, cause } => {
                let mut s = context.clone();
                s.append(", cause: ");
                let tail = cause.message();
                s.append(tail.as_str());
                s
            },
        }
    }

    /// Walk the context chain down to the innermost error.
    pub fn root_cause(&self) -> (r: &VfsError)
        ensures
            *r == root_cause_of(*self),
        decreases *self,
    {
        match self {
            VfsError::WithContext { context, cause } => cause.root_cause(),
            _ => self,
        }
    }
}

/// Attaching a context frame to the error of a `Result`, leaving a success
/// untouched.
pub trait ResultExt<T>: Sized {
    /// The success value, if this is a success.
    spec fn ok_part(self) -> Option<T>;

    /// The error value, if this is a failure.
    spec fn err_part(self) -> Option<VfsError>;

    /// Wrap a failure in a context frame carrying `context`; a success is
    /// returned unchanged.
    fn with_context(self, context: String) -> (r: Result<T, VfsError>)
        ensures
            self.ok_part() matches Some(v) ==> r == Ok::<T, VfsError>(v),
            self.err_part() matches Some(e) ==> (r matches Err(w) && w matches VfsError::WithContext {
                context: c,
                cause,
            } && c@ == context@ && *cause == e),
            (self.ok_part() is Some) != (self.err_part() is Some),
    ;
}

impl<T> ResultExt<T> for Result<T, VfsError> {
    open spec fn ok_part(self) -> Option<T> {
        match self {
            Ok(v) => Some(v),
            Err(_) => None,
        }
    }

    open spec fn err_part(self) -> Option<VfsError> {
        match self {
            Ok(_) => None,
            Err(e) => Some(e),
        }
    }

    fn with_context(self, context: String) -> (r: Result<T, VfsError>) {
        match self {
            Ok(v) => Ok(v),
            Err(e) => Err(VfsError::WithContext { context, cause: Box::new(e) }),
        }
    }
}

} // verus!
