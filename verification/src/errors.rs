//! Why a generation did not produce a maze.

use vstd::prelude::*;
use crate::dims::Dims3D;

verus! {

/// What a progress callback answers when it wants the generation to stop.
#[derive(Debug)]
pub enum ReportCallbackError<R, A> {
    /// The callback itself failed.
    ReportFunctionError(R),
    /// The callback asks to abandon the generation.
    AbortGeneration(A),
}

/// Why no maze was produced.
#[derive(Debug)]
pub enum GenerationError<R, A> {
    /// Some component of the requested size was zero.
    InvalidSize(Dims3D),
    /// The progress callback failed; its payload is handed on unchanged.
    ReportFunctionError(R),
    /// The progress callback asked to stop; its payload is handed on unchanged.
    AbortGeneration(A),
}

impl<R, A> GenerationError<R, A> {
    /// The generation error that carries the payload of a callback error.
    pub open spec fn of_report(e: ReportCallbackError<R, A>) -> GenerationError<R, A> {
        match e {
            ReportCallbackError::ReportFunctionError(r) => GenerationError::ReportFunctionError(r),
            ReportCallbackError::AbortGeneration(a) => GenerationError::AbortGeneration(a),
        }
    }
}

impl<R, A> From<ReportCallbackError<R, A>> for GenerationError<R, A> {
    fn from(e: ReportCallbackError<R, A>) -> (err: GenerationError<R, A>) {
        match e {
            ReportCallbackError::ReportFunctionError(r) => GenerationError::ReportFunctionError(r),
            ReportCallbackError::AbortGeneration(a) => GenerationError::AbortGeneration(a),
        }
    }
}

impl<R, A> vstd::std_specs::convert::FromSpecImpl<ReportCallbackError<R, A>> for GenerationError<R, A> {
    open spec fn obeys_from_spec() -> bool {
        true
    }

    open spec fn from_spec(e: ReportCallbackError<R, A>) -> GenerationError<R, A> {
        GenerationError::of_report(e)
    }
}

} // verus!
