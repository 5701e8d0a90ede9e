//! Why a solve, or the making of a solver, failed.

use vstd::prelude::*;

use crate::duration::{DURATION_END, SECOND};
use crate::text::{append_decimal, decimal};

verus! {

/// What went wrong.
#[derive(Debug, PartialEq, Eq)]
pub enum SolverError {
    /// The caller withdrew the request.
    Canceled,
    /// The time was up before the next field of view was tried.
    TimedOutBetweenSeeds { seeds: usize },
    /// No pattern can be formed of so few centroids.
    TooFew { centroids: usize },
    /// The solver ran out of time on the last field of view. In nanoseconds.
    TimedOut { elapsed: u128 },
    /// Nothing in the database matches.
    NoMatch { centroids: usize, seeds: usize },
    /// The database could not be generated.
    NotGenerated { catalog: String, cause: String },
    /// The database could not be loaded.
    NotLoaded { path: String, cause: String },
    /// The solving task did not come to its end.
    Panicked { cause: String },
}

/// The kinds of failure that callers tell apart.
#[derive(Clone, Copy, Debug, PartialEq, Eq, Structural)]
pub enum ErrorCode {
    DeadlineExceeded,
    InvalidArgument,
    NotFound,
    FailedPrecondition,
    Internal,
}

/// The text that `{:?}` makes of a `std::time::Duration` of so many nanoseconds.
pub uninterp spec fn debug_duration(nanos: nat) -> Seq<char>;

/// The text that `{:?}` makes of a string.
pub uninterp spec fn debug_string(s: Seq<char>) -> Seq<char>;

/// Formats a `std::time::Duration` with `{:?}`.
///
/// Trusted: the text depends on the length of the duration alone. How it looks is
/// not stated.
#[verifier::external_body]
fn duration_text(secs: u64, nanos: u32) -> (r: String)
    requires
        nanos < SECOND,
    ensures
        r@ == debug_duration((secs * SECOND + nanos) as nat),
{
    format!("{:?}", std::time::Duration::new(secs, nanos))
}

/// Formats a `str` with `{:?}`.
///
/// Trusted: the text depends on the characters of the string alone. How it looks is
/// not stated.
#[verifier::external_body]
fn string_text(s: &str) -> (r: String)
    ensures
        r@ == debug_string(s@),
{
    format!("{:?}", s)
}

impl SolverError {
    /// The durations it speaks of are durations.
    pub open spec fn well_formed(&self) -> bool {
        match self {
            SolverError::TimedOut { elapsed } => *elapsed < DURATION_END,
            _ => true,
        }
    }

    pub open spec fn kind(&self) -> ErrorCode {
        match self {
            SolverError::Canceled => ErrorCode::DeadlineExceeded,
            SolverError::TimedOutBetweenSeeds { .. } => ErrorCode::DeadlineExceeded,
            SolverError::TooFew { .. } => ErrorCode::InvalidArgument,
            SolverError::TimedOut { .. } => ErrorCode::DeadlineExceeded,
            SolverError::NoMatch { .. } => ErrorCode::NotFound,
            SolverError::NotGenerated { .. } => ErrorCode::FailedPrecondition,
            SolverError::NotLoaded { .. } => ErrorCode::FailedPrecondition,
            SolverError::Panicked { .. } => ErrorCode::Internal,
        }
    }

    pub fn code(&self) -> (c: ErrorCode)
        ensures
            c == self.kind(),
    {
        match self {
            SolverError::Canceled => ErrorCode::DeadlineExceeded,
            SolverError::TimedOutBetweenSeeds { .. } => ErrorCode::DeadlineExceeded,
            SolverError::TooFew { .. } => ErrorCode::InvalidArgument,
            SolverError::TimedOut { .. } => ErrorCode::DeadlineExceeded,
            SolverError::NoMatch { .. } => ErrorCode::NotFound,
            SolverError::NotGenerated { .. } => ErrorCode::FailedPrecondition,
            SolverError::NotLoaded { .. } => ErrorCode::FailedPrecondition,
            SolverError::Panicked { .. } => ErrorCode::Internal,
        }
    }

    /// The error in words.
    pub open spec fn words(&self) -> Seq<char> {
        match self {
            SolverError::Canceled => "plate solve canceled"@,
            SolverError::TimedOutBetweenSeeds { seeds } => "plate solve timed out after "@ + decimal(*seeds as nat)
                + " FOV seeds"@,
            SolverError::TooFew { centroids } => "too few centroids ("@ + decimal(*centroids as nat)
                + ") to form a pattern"@,
            SolverError::TimedOut { elapsed } => "plate solve timed out after "@ + debug_duration(*elapsed as nat),
            SolverError::NoMatch { centroids, seeds } => "no match for "@ + decimal(*centroids as nat)
                + " centroids over "@ + decimal(*seeds as nat) + " FOV seed(s)"@,
            SolverError::NotGenerated { catalog, cause } => "generating solver database from "@ + debug_string(
                catalog@,
            ) + ": "@ + cause@,
            SolverError::NotLoaded { path, cause } => "loading tetra3rs database "@ + debug_string(path@) + ": "@
                + cause@
                + ". Build one with:\n  cargo run --release --bin make-tetra3rs-db -- --gaia_catalog <gaia_merged.bin> --out "@
                + path@,
            SolverError::Panicked { cause } => "solve task panicked: "@ + cause@,
        }
    }

    pub fn message(&self) -> (r: String)
        requires
            self.well_formed(),
        ensures
            r@ == self.words(),
    {
        let mut s: String = String::new();
        match self {
            SolverError::Canceled => {
                s.append("plate solve canceled");
            },
            SolverError::TimedOutBetweenSeeds { seeds } => {
                s.append("plate solve timed out after ");
                append_decimal(&mut s, *seeds as u128);
                s.append(" FOV seeds");
            },
            SolverError::TooFew { centroids } => {
                s.append("too few centroids (");
                append_decimal(&mut s, *centroids as u128);
                s.append(") to form a pattern");
            },
            SolverError::TimedOut { elapsed } => {
                s.append("plate solve timed out after ");
                let text: String = duration_text((*elapsed / SECOND) as u64, (*elapsed % SECOND) as u32);
                s.append(text.as_str());
            },
            SolverError::NoMatch { centroids, seeds } => {
                s.append("no match for ");
                append_decimal(&mut s, *centroids as u128);
                s.append(" centroids over ");
                append_decimal(&mut s, *seeds as u128);
                s.append(" FOV seed(s)");
            },
            SolverError::NotGenerated { catalog, cause } => {
                s.append("generating solver database from ");
                let text: String = string_text(catalog.as_str());
                s.append(text.as_str());
                s.append(": ");
                s.append(cause.as_str());
            },
            SolverError::NotLoaded { path, cause } => {
                s.append("loading tetra3rs database ");
                let text: String = string_text(path.as_str());
                s.append(text.as_str());
                s.append(": ");
                s.append(cause.as_str());
                s.append(
                    ". Build one with:\n  cargo run --release --bin make-tetra3rs-db -- --gaia_catalog <gaia_merged.bin> --out ",
                );
                s.append(path.as_str());
            },
            SolverError::Panicked { cause } => {
                s.append("solve task panicked: ");
                s.append(cause.as_str());
            },
        }
        assert(s@ == self.words());
        s
    }
}

/// Callers tell failures apart by what they can do about them: a request that ran out of
/// time or was withdrawn, one that could not work, one that found nothing, a database
/// that is not there, and what should not happen.
pub proof fn law_failures_are_told_apart(e: SolverError, c: ErrorCode)
    requires
        call_ensures(SolverError::code, (&e,), c),
    ensures
        c == ErrorCode::DeadlineExceeded <==> e is Canceled || e is TimedOutBetweenSeeds || e is TimedOut,
        c == ErrorCode::InvalidArgument <==> e is TooFew,
        c == ErrorCode::NotFound <==> e is NoMatch,
        c == ErrorCode::FailedPrecondition <==> e is NotGenerated || e is NotLoaded,
        c == ErrorCode::Internal <==> e is Panicked,
{
}

/// What a failed solve is told in: how many seeds or centroids there were, or how long
/// it took.
pub proof fn law_failed_solves_are_put_in_words(e: SolverError, r: String)
    requires
        call_ensures(SolverError::message, (&e,), r),
    ensures
        e is Canceled ==> r@ == "plate solve canceled"@,
        e matches SolverError::TimedOutBetweenSeeds { seeds } ==> r@ == "plate solve timed out after "@ + decimal(
            seeds as nat,
        ) + " FOV seeds"@,
        e matches SolverError::TooFew { centroids } ==> r@ == "too few centroids ("@ + decimal(centroids as nat)
            + ") to form a pattern"@,
        e matches SolverError::TimedOut { elapsed } ==> r@ == "plate solve timed out after "@ + debug_duration(
            elapsed as nat,
        ),
        e matches SolverError::NoMatch { centroids, seeds } ==> r@ == "no match for "@ + decimal(centroids as nat)
            + " centroids over "@ + decimal(seeds as nat) + " FOV seed(s)"@,
{
}

/// What is wrong with a database, or with the solving task, is told with what it was
/// made from and the cause; and a database that could not be loaded with how to make one
/// in its place.
pub proof fn law_other_failures_are_put_in_words(e: SolverError, r: String)
    requires
        call_ensures(SolverError::message, (&e,), r),
    ensures
        e matches SolverError::NotGenerated { catalog, cause } ==> r@ == "generating solver database from "@
            + debug_string(catalog@) + ": "@ + cause@,
        e matches SolverError::NotLoaded { path, cause } ==> r@ == "loading tetra3rs database "@ + debug_string(path@)
            + ": "@ + cause@
            + ". Build one with:\n  cargo run --release --bin make-tetra3rs-db -- --gaia_catalog <gaia_merged.bin> --out "@
            + path@,
        e matches SolverError::Panicked { cause } ==> r@ == "solve task panicked: "@ + cause@,
{
}

} // verus!
