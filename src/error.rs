//! Errors of the collectors and of the reconciliation.
use vstd::prelude::*;

verus! {

/// Why a report could not be produced.
#[derive(Debug)]
pub enum OldeError {
    /// The local package query printed no package: the command that ran.
    EmptyOutput(String),
    /// A collector stopped because the other one failed: which collector.
    Canceled(String),
    /// An installed package's version has no release suffix: the line.
    MissingRelease(String),
    /// Two joined entries share a project and a local name: the local name.
    DuplicatePackage(String),
    /// A version has a numeric part too large to compare: the version.
    BadVersion(String),
    /// A remote page could not be decoded: the decoder's message.
    Deserialize(String),
    /// An outside process or network call failed: its message.
    Command(String),
    /// Both collectors failed, or one failed and the other was canceled.
    MultipleErrors(Vec<OldeError>),
}


/// Joins the outcomes of the two collectors: both values where both
/// succeeded, else `MultipleErrors` with every error, the first
/// collector's before the second's.
pub fn join_outcomes<T, U>(a: Result<T, OldeError>, b: Result<U, OldeError>) -> (r: Result<
    (T, U),
    OldeError,
>)
    ensures
        match (a, b) {
            (Ok(x), Ok(y)) => r == Ok::<(T, U), OldeError>((x, y)),
            (Err(e), Ok(_)) => r matches Err(OldeError::MultipleErrors(v)) && v@ == seq![e],
            (Ok(_), Err(f)) => r matches Err(OldeError::MultipleErrors(v)) && v@ == seq![f],
            (Err(e), Err(f)) => r matches Err(OldeError::MultipleErrors(v)) && v@ == seq![e, f],
        },
{
    match (a, b) {
        (Ok(x), Ok(y)) => Ok((x, y)),
        (a, b) => {
            let mut errs: Vec<OldeError> = Vec::new();
            match a {
                Err(e) => errs.push(e),
                Ok(_) => {},
            }
            match b {
                Err(f) => errs.push(f),
                Ok(_) => {},
            }
            Err(OldeError::MultipleErrors(errs))
        },
    }
}

} // verus!
