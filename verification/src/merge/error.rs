//! What can stop an analysis or a merge.
use vstd::prelude::*;

use crate::pak::error::{message_of as pak_message_of, PakError, PakErrorView};
use crate::text::{cat2, cat4, dec, decimal_usize};

verus! {

/// Why an analysis or a merge could not go on.
#[derive(Debug)]
#[allow(inconsistent_fields)]
pub enum MergeError {
    Pak(PakError),
    /// The message of the database reader.
    BinaryAsset(String),
    /// The message of the failed file operation.
    Io(String),
    /// The message of the JSON reader or writer.
    Json(String),
    InvalidRequest(String),
    /// The path of the input.
    InputChanged(String),
    Unresolved(String),
    InvalidResolution(String),
    AllocationFailed(&'static str),
    SizeOverflow(&'static str),
    StandaloneDatabase(String),
    MissingPackageComponent { package: String, component: &'static str },
    InvalidPlan(String),
    TooManyConflicts { actual: usize, limit: usize },
    DatabaseTooLarge,
    DatabaseStructureMismatch(String),
    Verification(String),
    Cancelled,
}

/// A `MergeError` with its texts as sequences of characters.
#[verifier::ext_equal]
#[allow(inconsistent_fields)]
pub enum MergeErrorView {
    Pak(PakErrorView),
    BinaryAsset(Seq<char>),
    Io(Seq<char>),
    Json(Seq<char>),
    InvalidRequest(Seq<char>),
    InputChanged(Seq<char>),
    Unresolved(Seq<char>),
    InvalidResolution(Seq<char>),
    AllocationFailed(Seq<char>),
    SizeOverflow(Seq<char>),
    StandaloneDatabase(Seq<char>),
    MissingPackageComponent { package: Seq<char>, component: Seq<char> },
    InvalidPlan(Seq<char>),
    TooManyConflicts { actual: usize, limit: usize },
    DatabaseTooLarge,
    DatabaseStructureMismatch(Seq<char>),
    Verification(Seq<char>),
    Cancelled,
}

impl View for MergeError {
    type V = MergeErrorView;

    open spec fn view(&self) -> MergeErrorView {
        match *self {
            MergeError::Pak(error) => MergeErrorView::Pak(error@),
            MergeError::BinaryAsset(text) => MergeErrorView::BinaryAsset(text@),
            MergeError::Io(text) => MergeErrorView::Io(text@),
            MergeError::Json(text) => MergeErrorView::Json(text@),
            MergeError::InvalidRequest(text) => MergeErrorView::InvalidRequest(text@),
            MergeError::InputChanged(path) => MergeErrorView::InputChanged(path@),
            MergeError::Unresolved(text) => MergeErrorView::Unresolved(text@),
            MergeError::InvalidResolution(text) => MergeErrorView::InvalidResolution(text@),
            MergeError::AllocationFailed(what) => MergeErrorView::AllocationFailed(what@),
            MergeError::SizeOverflow(what) => MergeErrorView::SizeOverflow(what@),
            MergeError::StandaloneDatabase(path) => MergeErrorView::StandaloneDatabase(path@),
            MergeError::MissingPackageComponent { package, component } => {
                MergeErrorView::MissingPackageComponent {
                    package: package@,
                    component: component@,
                }
            },
            MergeError::InvalidPlan(text) => MergeErrorView::InvalidPlan(text@),
            MergeError::TooManyConflicts { actual, limit } => MergeErrorView::TooManyConflicts {
                actual,
                limit,
            },
            MergeError::DatabaseTooLarge => MergeErrorView::DatabaseTooLarge,
            MergeError::DatabaseStructureMismatch(text) => {
                MergeErrorView::DatabaseStructureMismatch(text@)
            },
            MergeError::Verification(text) => MergeErrorView::Verification(text@),
            MergeError::Cancelled => MergeErrorView::Cancelled,
        }
    }
}

pub type Result<T> = std::result::Result<T, MergeError>;

/// The outcome of a merge step as contracts see it.
pub type Outcome<W> = std::result::Result<W, MergeErrorView>;

/// A result with its value and its error as they are seen in contracts.
pub open spec fn seen<T: View>(result: Result<T>) -> Outcome<T::V> {
    match result {
        Ok(value) => Ok(value@),
        Err(error) => Err(error@),
    }
}

/// A Pak operation's outcome as a step of a merge.
pub open spec fn in_merge<W>(outcome: std::result::Result<W, PakErrorView>) -> Outcome<W> {
    match outcome {
        Ok(value) => Ok(value),
        Err(error) => Err(MergeErrorView::Pak(error)),
    }
}

pub open spec fn invalid_request<W>(text: Seq<char>) -> Outcome<W> {
    Err(MergeErrorView::InvalidRequest(text))
}

pub open spec fn unverified<W>(text: Seq<char>) -> Outcome<W> {
    Err(MergeErrorView::Verification(text))
}

pub open spec fn mismatch<W>(text: Seq<char>) -> Outcome<W> {
    Err(MergeErrorView::DatabaseStructureMismatch(text))
}

/// The sentence that is shown for an error.
pub open spec fn message_of(error: MergeErrorView) -> Seq<char> {
    match error {
        MergeErrorView::Pak(error) => "Pak error: "@ + pak_message_of(error),
        MergeErrorView::BinaryAsset(text) => "could not read the game database: "@ + text,
        MergeErrorView::Io(text) => "could not read or write a file: "@ + text,
        MergeErrorView::Json(text) => "could not read or write JSON: "@ + text,
        MergeErrorView::InvalidRequest(text) => "cannot start this operation: "@ + text,
        MergeErrorView::InputChanged(path) => "an input Pak changed after analysis: "@ + path,
        MergeErrorView::Unresolved(text) => "some conflicts still need a choice: "@ + text,
        MergeErrorView::InvalidResolution(text) => "a saved choice is not valid: "@ + text,
        MergeErrorView::AllocationFailed(what) => "not enough memory for "@ + what,
        MergeErrorView::SizeOverflow(what) => what + " is too large"@,
        MergeErrorView::StandaloneDatabase(path) => {
            "standalone file cannot be merged as a database: "@ + path
        },
        MergeErrorView::MissingPackageComponent { package, component } => "package "@ + package
            + " is missing "@ + component,
        MergeErrorView::InvalidPlan(text) => "the merge plan is inconsistent: "@ + text,
        MergeErrorView::TooManyConflicts { actual, limit } => "analysis found "@ + dec(
            actual as nat,
        ) + " conflicts; limit is "@ + dec(limit as nat),
        MergeErrorView::DatabaseTooLarge => "the merged database is too large"@,
        MergeErrorView::DatabaseStructureMismatch(text) => {
            "the database file layouts do not match: "@ + text
        },
        MergeErrorView::Verification(text) => {
            "the merged output did not pass its final checks: "@ + text
        },
        MergeErrorView::Cancelled => "operation cancelled"@,
    }
}

impl MergeError {
    /// The sentence that is shown for the error.
    pub fn message(&self) -> (result: String)
        ensures
            result@ == message_of(self@),
    {
        match self {
            MergeError::Pak(error) => cat2("Pak error: ", error.message().as_str()),
            MergeError::BinaryAsset(text) => cat2(
                "could not read the game database: ",
                text.as_str(),
            ),
            MergeError::Io(text) => cat2("could not read or write a file: ", text.as_str()),
            MergeError::Json(text) => cat2("could not read or write JSON: ", text.as_str()),
            MergeError::InvalidRequest(text) => cat2(
                "cannot start this operation: ",
                text.as_str(),
            ),
            MergeError::InputChanged(path) => cat2(
                "an input Pak changed after analysis: ",
                path.as_str(),
            ),
            MergeError::Unresolved(text) => cat2(
                "some conflicts still need a choice: ",
                text.as_str(),
            ),
            MergeError::InvalidResolution(text) => cat2(
                "a saved choice is not valid: ",
                text.as_str(),
            ),
            MergeError::AllocationFailed(what) => cat2("not enough memory for ", what),
            MergeError::SizeOverflow(what) => cat2(what, " is too large"),
            MergeError::StandaloneDatabase(path) => cat2(
                "standalone file cannot be merged as a database: ",
                path.as_str(),
            ),
            MergeError::MissingPackageComponent { package, component } => cat4(
                "package ",
                package.as_str(),
                " is missing ",
                component,
            ),
            MergeError::InvalidPlan(text) => cat2(
                "the merge plan is inconsistent: ",
                text.as_str(),
            ),
            MergeError::TooManyConflicts { actual, limit } => cat4(
                "analysis found ",
                decimal_usize(*actual).as_str(),
                " conflicts; limit is ",
                decimal_usize(*limit).as_str(),
            ),
            MergeError::DatabaseTooLarge => "the merged database is too large".to_owned(),
            MergeError::DatabaseStructureMismatch(text) => cat2(
                "the database file layouts do not match: ",
                text.as_str(),
            ),
            MergeError::Verification(text) => cat2(
                "the merged output did not pass its final checks: ",
                text.as_str(),
            ),
            MergeError::Cancelled => "operation cancelled".to_owned(),
        }
    }
}

/// Stops a cancelled operation.
pub fn check_cancel(cancelled: bool) -> (result: Result<()>)
    ensures
        seen(result) == (if cancelled {
            Err::<(), MergeErrorView>(MergeErrorView::Cancelled)
        } else {
            Ok(())
        }),
{
    if cancelled {
        Err(MergeError::Cancelled)
    } else {
        Ok(())
    }
}

} // verus!
