//! What the generator reports without failing.

use vstd::prelude::*;
use crate::text::Text;
use crate::units::Iu;

verus! {

/// A remark on the generated schematic.
#[derive(Debug, PartialEq, Eq)]
pub enum Warning {
    /// The component had no symbol, so a box was made from its pads.
    BoxSymbol { refdes: String, path: Text },
    /// A sheet holds more components than configured.
    DenseSheet { title: Text, count: usize, max: usize },
    /// A manual position of another unit than the first.
    ManualMultiUnit { key: String },
    /// A manual position of no component.
    ManualNotFound { key: String },
    /// A manual position was moved onto the grid.
    ManualSnapped { refdes: String, dx: Iu, dy: Iu },
    /// All manual positions were moved together.
    ManualTranslated { dx: Iu, dy: Iu },
    /// The anchor of a component is not on its sheet.
    AnchorNotFound { anchor: String, refdes: String },
    /// A chain of anchors that never ends: the component is placed on its own.
    AnchorChain { refdes: String },
    /// A satellite whose anchor was never placed; one remark for each of them. The first of those
    /// that are stranded together is marked.
    Stranded { refdes: String, first: bool },
    /// A component could not be moved clear of the others.
    Overlap { refdes: String },
    /// A power stub covers a text or a symbol, but touches no other net.
    PowerStubOverlap { net: String, refdes: String },
    /// A power stub touches another net.
    PowerStubContact { net: String, refdes: String },
    /// Some endpoints of an analog net are joined by labels.
    AnalogBroken { net: String, wired: usize, total: usize },
    /// The root sheet has ports.
    RootPorts,
    /// A port without anything to anchor it on the sheet.
    PortFallback { net: String },
    /// A text of a component had to be drawn over something.
    TextOverlap { refdes: String },
}

} // verus!
