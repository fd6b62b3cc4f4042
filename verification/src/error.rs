//! Error types.

use vstd::prelude::*;

verus! {

/// A top-level error of the simulator.
#[derive(Debug)]
pub struct SalvoSimError {
    msg: String,
}

/// An error loading a scenario file.
#[derive(Debug)]
pub struct ConfigLoadError {
    msg: String,
}

impl SalvoSimError {
    /// The error's message.
    pub closed spec fn text(&self) -> Seq<char> {
        self.msg@
    }

    /// An error with the given message.
    pub fn msg(msg: String) -> (e: Self)
        ensures
            e.text() == msg@,
    {
        SalvoSimError { msg }
    }

    /// The error's message, as it is displayed.
    pub fn message(&self) -> (s: String)
        ensures
            s@ == self.text(),
    {
        self.msg.clone()
    }
}

impl ConfigLoadError {
    /// The error's message.
    pub closed spec fn text(&self) -> Seq<char> {
        self.msg@
    }

    /// An error with the given message (such as the debug form of the
    /// I/O or parse error that caused it).
    pub fn new(msg: String) -> (e: Self)
        ensures
            e.text() == msg@,
    {
        ConfigLoadError { msg }
    }

    /// The error's message, as it is displayed.
    pub fn message(&self) -> (s: String)
        ensures
            s@ == self.text(),
    {
        self.msg.clone()
    }
}

impl From<ConfigLoadError> for SalvoSimError {
    /// Carries the configuration error's message over.
    fn from(value: ConfigLoadError) -> (e: Self)
        ensures
            e.text() == value.text(),
    {
        SalvoSimError { msg: value.msg }
    }
}

impl vstd::std_specs::convert::FromSpecImpl<ConfigLoadError> for SalvoSimError {
    open spec fn obeys_from_spec() -> bool {
        true
    }

    closed spec fn from_spec(v: ConfigLoadError) -> Self {
        SalvoSimError { msg: v.msg }
    }
}

} // verus!
