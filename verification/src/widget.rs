//! Identities for drawable things: atlas image slots and UI widget ids.

use vstd::prelude::*;

verus! {

/// A drawable image stored in a canvas atlas texture.  By convention the
/// default image holds a solid-colour texel for drawing plain polygons.
#[derive(Clone, Copy, PartialEq, Eq, Structural, Debug)]
pub struct Image(pub usize);

impl Default for Image {
    /// The conventional solid-colour image at slot zero.
    fn default() -> (r: Image)
        ensures
            r == Image(0usize),
    {
        Image(0)
    }
}

/// A UI widget's static identifier, unique for a specific site in source
/// code.
#[derive(Clone, Copy, PartialEq, Debug)]
pub struct WidgetId {
    pub filename: &'static str,
    pub line: u32,
    pub column: u32,
}

impl WidgetId {
    /// The identifier of the source position given.
    pub fn new(filename: &'static str, line: u32, column: u32) -> (w: WidgetId)
        ensures
            w.filename@ == filename@,
            w.line == line,
            w.column == column,
    {
        WidgetId { filename, line, column }
    }

    /// A throwaway identifier for widgets nobody needs to address.
    pub fn dummy() -> (w: WidgetId)
        ensures
            w.filename@ == "n/a"@,
            w.line == 666666,
            w.column == 666666,
    {
        WidgetId { filename: "n/a", line: 666666, column: 666666 }
    }
}

} // verus!
