//! Small host-facing helpers.

use vstd::prelude::*;

verus! {

/// A diagnostic hook that callers may drop in while exploring types; it
/// reports nothing in this build.
pub fn print_type_of<T>(_t: &T) {
}

/// Entry point reserved for an interactive terminal interface; drawing and
/// key handling are I/O and live with the host program, so the library keeps
/// this a no-op.
pub fn gui_functionality() {
}

} // verus!
