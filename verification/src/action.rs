//! Handles for the handlers that the host program keeps.
//!
//! The library decides which handler is to run and with what context; the
//! host, which holds the handlers themselves, runs it.

use vstd::prelude::*;

verus! {

/// Names a handler that reports nothing back.
#[derive(PartialEq, Eq, Structural, Clone, Copy, Debug)]
pub struct Action {
    pub id: usize,
}

/// Names a handler that reports success or an error.
#[derive(PartialEq, Eq, Structural, Clone, Copy, Debug)]
pub struct ActionWithResult {
    pub id: usize,
}

} // verus!
