//! Scrollbar display policy: when a scrollbar is shown and how it is laid
//! out relative to the content it scrolls.

use vstd::prelude::*;

verus! {

/// When to show a scrollbar.
#[derive(Clone, Copy, Debug, PartialEq, Eq, Structural)]
pub enum ScrollbarVisibility {
    /// Always show the scrollbar.
    Always,
    /// Show the scrollbar only while the mouse is over the scrolled panel.
    OnHover,
    /// Never show the scrollbar.
    Never,
}

impl Default for ScrollbarVisibility {
    /// The default visibility: always shown.
    fn default() -> (r: Self)
        ensures
            r == ScrollbarVisibility::Always,
    {
        ScrollbarVisibility::Always
    }
}

/// How a shown scrollbar occupies space.
#[derive(Clone, Copy, Debug, PartialEq, Eq, Structural)]
pub enum ScrollbarDisplayStyle {
    /// The scrollbar takes up space of its own and offsets the content.
    Block,
    /// The scrollbar overlays the content without offsetting it.
    Overlay,
}

impl Default for ScrollbarDisplayStyle {
    /// The default display style: a block scrollbar.
    fn default() -> (r: Self)
        ensures
            r == ScrollbarDisplayStyle::Block,
    {
        ScrollbarDisplayStyle::Block
    }
}

impl From<ScrollbarVisibility> for ScrollbarDisplayStyle {
    /// A hover-only scrollbar overlays the content; any other visibility
    /// gets a block scrollbar.
    fn from(visibility: ScrollbarVisibility) -> (r: Self) {
        match visibility {
            ScrollbarVisibility::OnHover => ScrollbarDisplayStyle::Overlay,
            _ => ScrollbarDisplayStyle::Block,
        }
    }
}

impl vstd::std_specs::convert::FromSpecImpl<ScrollbarVisibility> for ScrollbarDisplayStyle {
    open spec fn obeys_from_spec() -> bool {
        true
    }

    open spec fn from_spec(visibility: ScrollbarVisibility) -> Self {
        match visibility {
            ScrollbarVisibility::OnHover => ScrollbarDisplayStyle::Overlay,
            _ => ScrollbarDisplayStyle::Block,
        }
    }
}

} // verus!
