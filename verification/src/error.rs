//! The error type of the inspection library.

use vstd::prelude::*;
use vstd::string::StringExecFns;
use crate::text::{id_hex_seq, id_hex_string};

verus! {

/// Errors surfaced by the inspection library and its host.
#[derive(Debug)]
pub enum WmError {
    XcbConnection(String),
    XcbQuery(String),
    XcbError(String),
    WindowNotFound(u32),
    InvalidAttribute(String),
    FilterParsing(String),
    Io(String),
    Serialization(String),
    Configuration(String),
    Runtime(String),
}

/// The report text of an error.
pub open spec fn wm_error_text(e: WmError) -> Seq<char> {
    match e {
        WmError::XcbConnection(s) => "XCB connection error: "@ + s@,
        WmError::XcbQuery(s) => "XCB query error: "@ + s@,
        WmError::XcbError(s) => "XCB error: "@ + s@,
        WmError::WindowNotFound(id) => "Window not found: "@ + id_hex_seq(id),
        WmError::InvalidAttribute(s) => "Invalid window attribute: "@ + s@,
        WmError::FilterParsing(s) => "Filter parsing error: "@ + s@,
        WmError::Io(s) => "IO error: "@ + s@,
        WmError::Serialization(s) => "Serialization error: "@ + s@,
        WmError::Configuration(s) => "Configuration error: "@ + s@,
        WmError::Runtime(s) => "Runtime error: "@ + s@,
    }
}

impl WmError {
    /// A human-readable report of the error.
    pub fn message(&self) -> (r: String)
        ensures
            r@ == wm_error_text(*self),
    {
        let mut out = String::new();
        match self {
            WmError::XcbConnection(s) => {
                out.append("XCB connection error: ");
                out.append(s.as_str());
            },
            WmError::XcbQuery(s) => {
                out.append("XCB query error: ");
                out.append(s.as_str());
            },
            WmError::XcbError(s) => {
                out.append("XCB error: ");
                out.append(s.as_str());
            },
            WmError::WindowNotFound(id) => {
                out.append("Window not found: ");
                let hx = id_hex_string(*id);
                out.append(hx.as_str());
            },
            WmError::InvalidAttribute(s) => {
                out.append("Invalid window attribute: ");
                out.append(s.as_str());
            },
            WmError::FilterParsing(s) => {
                out.append("Filter parsing error: ");
                out.append(s.as_str());
            },
            WmError::Io(s) => {
                out.append("IO error: ");
                out.append(s.as_str());
            },
            WmError::Serialization(s) => {
                out.append("Serialization error: ");
                out.append(s.as_str());
            },
            WmError::Configuration(s) => {
                out.append("Configuration error: ");
                out.append(s.as_str());
            },
            WmError::Runtime(s) => {
                out.append("Runtime error: ");
                out.append(s.as_str());
            },
        }
        out
    }
}

/// Result of window-manager operations.
pub type WmResult<T> = Result<T, WmError>;

} // verus!
