//! The one failure that the file system reports.

use crate::file_system::node::error::Error;
use vstd::prelude::*;

verus! {

/// A call that did not succeed, with a message that names what failed and
/// why. That an entry is not there is no failure.
#[derive(Debug)]
pub struct IoFailure {
    pub message: String,
}

impl IoFailure {
    /// The message says that the host could not tell whether an entry is
    /// there.
    pub open spec fn in_exists(m: Seq<char>) -> bool {
        "failed fs.existsSync: "@.is_prefix_of(m)
    }

    /// The message says that the host gave no metadata.
    pub open spec fn in_lstat(m: Seq<char>) -> bool {
        "failed lstat_sync : "@.is_prefix_of(m)
    }

    /// The message says that the host could not list a directory.
    pub open spec fn in_read_dir(m: Seq<char>) -> bool {
        "failed read dir: "@.is_prefix_of(m)
    }

    /// The message says that the host could not read a file.
    pub open spec fn in_read_file(m: Seq<char>) -> bool {
        "failed read file: "@.is_prefix_of(m)
    }

    /// The message says that the host could not write a file.
    pub open spec fn in_write_file(m: Seq<char>) -> bool {
        "failed write file: "@.is_prefix_of(m)
    }

    /// The message says that the host could not make a directory.
    pub open spec fn in_create_dir(m: Seq<char>) -> bool {
        "failed to create dir "@.is_prefix_of(m)
    }

    /// The message says that the host could not remove an entry.
    pub open spec fn in_rm(m: Seq<char>) -> bool {
        "failed fs.rmSync : "@.is_prefix_of(m)
    }

    /// The message says that the host could not remove a directory.
    pub open spec fn in_rm_dir(m: Seq<char>) -> bool {
        "failed fs.rmdirSync : "@.is_prefix_of(m)
    }

    /// The message names one of the steps that look an entry up.
    pub open spec fn in_lookup(m: Seq<char>) -> bool {
        Self::in_exists(m) || Self::in_lstat(m) || Self::in_read_dir(m)
    }

    /// The message names one of the steps that make a directory.
    pub open spec fn in_making(m: Seq<char>) -> bool {
        Self::in_exists(m) || Self::in_create_dir(m)
    }

    /// The message names one of the steps that put a file.
    pub open spec fn in_writing(m: Seq<char>) -> bool {
        Self::in_making(m) || Self::in_write_file(m)
    }

    /// The message names one of the steps that remove an entry.
    pub open spec fn in_removing(m: Seq<char>) -> bool {
        Self::in_lookup(m) || Self::in_rm(m) || Self::in_rm_dir(m)
    }

    /// The failure of the step that `context` names, with the code of the
    /// host's error as its cause.
    pub fn new(context: &str, cause: &Error) -> (r: IoFailure)
        ensures
            r.message@ == context@ + cause.code@,
    {
        let mut message = context.to_owned();
        message.append(cause.code.as_str());
        IoFailure { message }
    }

    /// The message of the failure.
    pub fn to_string(&self) -> (r: String)
        ensures
            r@ == self.message@,
    {
        self.message.clone()
    }
}

/// Results as they are handed to a script: the error is its message.
pub trait IntoJsResult<T> {
    fn into_js_result(self) -> Result<T, String>;
}

impl<T> IntoJsResult<T> for Result<T, IoFailure> {
    fn into_js_result(self) -> (r: Result<T, String>)
        ensures
            self matches Ok(v) ==> r == Ok::<T, String>(v),
            self matches Err(e) ==> r is Err && r->Err_0@ == e.message@,
    {
        match self {
            Ok(out) => Ok(out),
            Err(e) => Err(e.to_string()),
        }
    }
}

} // verus!
