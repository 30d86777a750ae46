//! The window record that rules are evaluated against, and the host-side
//! option conditions.

use vstd::prelude::*;

verus! {

/// Window geometry: position of the top-left corner and size in pixels.
#[derive(Debug, Clone, Copy, PartialEq, Eq, Structural)]
pub struct Geometry {
    pub x: i16,
    pub y: i16,
    pub width: u16,
    pub height: u16,
}

/// Map state of a window.
#[derive(Debug, Clone, Copy, PartialEq, Eq, Structural)]
pub enum MapState {
    Unmapped,
    Viewable,
    Unviewable,
}

/// The window attributes the rule language can inspect.
#[derive(Debug, Clone, Copy, PartialEq, Eq, Structural)]
pub struct Attributes {
    pub override_redirect: bool,
    pub map_state: MapState,
}

/// A window record, immutable during rule evaluation. `valid` is cleared by
/// the collection stage when a property query failed; the rule engine does
/// not interpret it.
#[derive(Debug, Clone)]
pub struct Window {
    pub id: u32,
    pub name: String,
    pub attrs: Attributes,
    pub geom: Geometry,
    pub valid: bool,
}

/// Host-side display conditions attached to a monitoring context.
#[derive(Debug, Clone, Copy)]
pub enum Condition {
    Colorful,
    MappedOnly,
    OmitHidden,
    NoSpecial,
    ShowDiff,
    ClientsOnly,
    NoOverrideRedirect,
}

pub type WindowId = u32;

pub type WindowStackView = Vec<WindowId>;

} // verus!
