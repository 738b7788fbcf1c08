//! The failures that end a scan.

use vstd::prelude::*;

verus! {

/// Why a scan was given up.
#[derive(Clone, Debug, PartialEq, Eq)]
pub enum ScanError {
    /// The root to scan does not exist.
    RootNotFound(String),
    /// A file that was to be hashed could not be opened or read.
    Unreadable(String),
}

/// The mathematical value of a [`ScanError`].
pub enum ScanErrorView {
    RootNotFound(Seq<char>),
    Unreadable(Seq<char>),
}

impl View for ScanError {
    type V = ScanErrorView;

    open spec fn view(&self) -> ScanErrorView {
        match *self {
            ScanError::RootNotFound(root) => ScanErrorView::RootNotFound(root@),
            ScanError::Unreadable(path) => ScanErrorView::Unreadable(path@),
        }
    }
}

/// The text that tells the user of an error.
pub open spec fn error_text(error: ScanErrorView) -> Seq<char> {
    match error {
        ScanErrorView::RootNotFound(root) => "\""@ + root + "\" directory does not exist"@,
        ScanErrorView::Unreadable(path) => "cannot read \""@ + path + "\""@,
    }
}

impl ScanError {
    /// Writes the error out for the user.
    pub fn message(&self) -> (text: String)
        ensures
            text@ == error_text(self@),
    {
        match self {
            ScanError::RootNotFound(root) => {
                let mut text = String::from_str("\"");
                text.append(root.as_str());
                text.append("\" directory does not exist");
                text
            },
            ScanError::Unreadable(path) => {
                let mut text = String::from_str("cannot read \"");
                text.append(path.as_str());
                text.append("\"");
                text
            },
        }
    }
}

/// Decides whether a scan of `root` may begin: it may where the root exists,
/// and otherwise the scan ends before any work is done.
pub fn check_root(root: &str, exists: bool) -> (outcome: Result<(), ScanError>)
    ensures
        match outcome {
            Ok(_) => exists,
            Err(e) => !exists && e@ == ScanErrorView::RootNotFound(root@),
        },
{
    if exists {
        Ok(())
    } else {
        Err(ScanError::RootNotFound(String::from_str(root)))
    }
}

} // verus!
