//! Diagnostics: the error record the object tree reports and the collecting
//! sink errors are registered with.
//!
//! Every fault here is local and recoverable: the affected declaration gets a
//! safe fallback and the rest of the tree is still built, so errors are
//! accumulated rather than thrown.

use vstd::prelude::*;
use crate::ast::Location;

verus! {

/// What went wrong, structurally.
#[derive(Clone, Copy, PartialEq, Eq, Structural, Debug)]
pub enum ErrorKind {
    /// An empty path was handed to a mutation entry point.
    CannotRegisterRoot,
    /// A name already registered as a procedure was declared var-style.
    ProcLooksLikeVar,
    /// A var declaration keyword stood where a procedure was declared.
    VarLooksLikeProc,
    /// A var declaration with a value carried no variable name.
    VarMustHaveName,
    /// A proc declaration carried no procedure name.
    ProcMustHaveName,
    /// Segments followed a procedure name, which must be a single identifier.
    SpuriousProcSegment,
    /// An expression the simple constant folder does not evaluate.
    NotAConstant,
    /// A `parent_type` expression evaluated to a constant that names no path.
    BadParentTypeValue,
    /// A resolved parent type path is registered nowhere in the tree.
    BadParentType,
}

/// An error report, carrying where and what.
#[derive(Clone, Copy, PartialEq, Eq, Structural, Debug)]
pub struct DMError {
    pub location: Location,
    pub kind: ErrorKind,
}

impl DMError {
    /// Builds an error report.
    pub fn new(location: Location, kind: ErrorKind) -> (r: DMError)
        ensures
            r == (DMError { location, kind }),
    {
        DMError { location, kind }
    }
}

/// The diagnostics sink: registered errors in registration order.
#[derive(Debug)]
pub struct Context {
    pub errors: Vec<DMError>,
}

impl Context {
    /// An empty sink.
    pub fn new() -> (r: Context)
        ensures
            r.errors@.len() == 0,
    {
        Context { errors: Vec::new() }
    }

    /// Appends one error report.
    pub fn register_error(&mut self, error: DMError)
        ensures
            final(self).errors@ == old(self).errors@.push(error),
    {
        self.errors.push(error);
    }

    /// How many errors have been registered.
    pub fn error_count(&self) -> (r: usize)
        ensures
            r == self.errors@.len(),
    {
        self.errors.len()
    }
}

} // verus!
