//! The data the web forms submit.

use vstd::prelude::*;

verus! {

/// A scenario submitted from the editor: the file name it is saved under
/// and its TOML text.
#[derive(Debug)]
pub struct ScenarioForm {
    pub filename: String,
    pub content: String,
}

/// A Monte Carlo run request overriding the iteration count.
#[derive(Debug)]
pub struct SimulateForm {
    pub iterations: u32,
}

} // verus!
