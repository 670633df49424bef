use vstd::prelude::*;

verus! {

/// What went wrong, by kind.
#[derive(Clone, Copy, Debug, PartialEq, Eq, Structural)]
pub enum ErrorKind {
    /// The sampler cannot draw a parameter.
    SamplerError,
    /// The storage holds something that cannot be read.
    StorageError,
    /// No trial has the given ID.
    TrialNotFound,
    /// The trial was removed from the study.
    TrialDiscarded,
    /// Anything else.
    Unexpected,
}

/// An error of the sampler: a kind and, where there is more to say, a reason.
#[derive(Debug)]
pub struct Failure {
    pub kind: ErrorKind,
    pub reason: Option<String>,
}

/// The value of a [`Failure`].
pub struct FailureView {
    pub kind: ErrorKind,
    pub reason: Option<Seq<char>>,
}

impl View for Failure {
    type V = FailureView;

    open spec fn view(&self) -> FailureView {
        FailureView {
            kind: self.kind,
            reason: match self.reason {
                Some(reason) => Some(reason@),
                None => None,
            },
        }
    }
}

/// An error of the given kind without a reason.
pub open spec fn plain_error(kind: ErrorKind) -> FailureView {
    FailureView { kind, reason: None }
}

/// An error of the given kind with the given reason.
pub open spec fn error_because(kind: ErrorKind, reason: Seq<char>) -> FailureView {
    FailureView { kind, reason: Some(reason) }
}

/// Sees through the values of a result to what they denote.
pub open spec fn outcome<T: View>(result: Result<T, Failure>) -> Result<T::V, FailureView> {
    match result {
        Ok(value) => Ok(value@),
        Err(error) => Err(error@),
    }
}

impl Failure {
    /// An error that its kind says all about.
    pub fn new(kind: ErrorKind) -> (error: Failure)
        ensures
            error@ == plain_error(kind),
    {
        Failure { kind, reason: None }
    }

    /// An error with a reason.
    pub fn with_reason(kind: ErrorKind, reason: String) -> (error: Failure)
        ensures
            error@ == error_because(kind, reason@),
    {
        Failure { kind, reason: Some(reason) }
    }

    /// A second error that says the same.
    pub fn duplicate(&self) -> (error: Failure)
        ensures
            error@ == self@,
    {
        let reason = match &self.reason {
            Some(reason) => Some(reason.clone()),
            None => None,
        };
        Failure { kind: self.kind, reason }
    }
}

/// What the values of errors and results are: an error has its kind and the characters of its
/// reason, and a result is that of the value or of the error in it.
pub proof fn law_errors_say_their_kind_and_reason<T: View>(
    kind: ErrorKind,
    reason: Seq<char>,
    error: Failure,
    value: T,
)
    ensures
        plain_error(kind).kind == kind,
        plain_error(kind).reason is None,
        error_because(kind, reason).kind == kind,
        error_because(kind, reason).reason == Some(reason),
        error@.kind == error.kind,
        error.reason is None <==> error@.reason is None,
        error.reason matches Some(text) ==> error@.reason == Some(text@),
        outcome(Ok::<T, Failure>(value)) == Ok::<T::V, FailureView>(value@),
        outcome(Err::<T, Failure>(error)) == Err::<T::V, FailureView>(error@),
{
}

} // verus!
