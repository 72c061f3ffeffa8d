//! The design as the layout sees it: components with their symbols, and nets with their endpoints.

use vstd::prelude::*;
use crate::geometry::{MirrorAxis, SymbolGeom};
use crate::units::Point;
use crate::text::Text;
use crate::warning::Warning;

verus! {

/// What a net carries.
#[derive(Clone, Copy, Debug, PartialEq, Eq, Structural)]
pub enum NetClass {
    Power,
    Ground,
    Signal,
}

/// What a component does in its circuit.
#[derive(Clone, Copy, Debug, PartialEq, Eq, Structural)]
pub enum Role {
    Connector,
    Regulator,
    Mcu,
    Sensor,
    Protection,
    Crystal,
    Led,
    Decoupling,
    Bulk,
    Pull,
    Passive,
    Other,
}

impl Role {
    pub open spec fn spec_is_satellite(self) -> bool {
        self == Role::Passive || self == Role::Decoupling || self == Role::Bulk || self
            == Role::Pull || self == Role::Led
    }

    /// Does a component of this role belong to another one?
    pub fn is_satellite(self) -> (r: bool)
        ensures
            r == self.spec_is_satellite(),
    {
        match self {
            Role::Passive | Role::Decoupling | Role::Bulk | Role::Pull | Role::Led => true,
            _ => false,
        }
    }
}

/// Side of an anchor that a satellite is placed on.
#[derive(Clone, Copy, Debug, PartialEq, Eq, Structural)]
pub enum Side {
    Above,
    Below,
    Left,
    Right,
}

impl Side {
    pub open spec fn spec_default_for(role: Role) -> Side {
        match role {
            Role::Pull => Side::Above,
            Role::Bulk => Side::Right,
            Role::Protection => Side::Right,
            Role::Crystal => Side::Left,
            _ => Side::Below,
        }
    }

    /// The side that a component of this role takes unless told otherwise.
    pub fn default_for(role: Role) -> (r: Side)
        ensures
            r == Side::spec_default_for(role),
    {
        match role {
            Role::Pull => Side::Above,
            Role::Bulk => Side::Right,
            Role::Protection => Side::Right,
            Role::Crystal => Side::Left,
            _ => Side::Below,
        }
    }
}

/// A position that was set by hand.
#[derive(Clone, Copy, Debug, PartialEq, Eq, Structural)]
pub struct ManualPosition {
    pub at: Point,
    pub rotation: i32,
    pub mirror: Option<MirrorAxis>,
}

/// A component of the design.
#[derive(Debug)]
pub struct Comp {
    /// Instance path, outermost module first.
    pub path: Box<[String]>,
    /// The path joined by dots.
    pub path_key: Text,
    pub refdes: String,
    pub value: Text,
    pub footprint: Option<Text>,
    pub mpn: Option<String>,
    pub datasheet: Option<String>,
    pub description: Option<String>,
    pub dnp: bool,
    pub geom: SymbolGeom,
    pub role: Role,
    /// Component that this one is to be placed at.
    pub anchor_attr: Option<String>,
    pub side_attr: Option<Side>,
    pub edge_attr: Option<String>,
    pub manual: Option<ManualPosition>,
    /// Number of distinct positions among the pins that are drawn.
    pub visible_pins: usize,
    /// The symbol is a box made from the pads.
    pub synthesized: bool,
    pub is_net_tie: bool,
}

/// A pad of a component.
#[derive(Debug)]
pub struct PadRef {
    /// Index of the component.
    pub comp: usize,
    pub pad: String,
}

/// A net of the design.
#[derive(Debug)]
pub struct NetModel {
    pub name: String,
    pub class: NetClass,
    pub endpoints: Box<[PadRef]>,
    /// A power output or an output drives this net.
    pub driven: bool,
    pub digital: bool,
}

/// The design.
#[derive(Debug)]
pub struct DesignModel {
    pub comps: Box<[Comp]>,
    pub nets: Box<[NetModel]>,
    pub warnings: Box<[Warning]>,
}

impl DesignModel {
    /// Every endpoint belongs to a component of the design.
    pub open spec fn wf(&self) -> bool {
        forall|n: int, e: int|
            0 <= n < self.nets@.len() && 0 <= e < self.nets@[n].endpoints@.len() ==> (
            #[trigger] self.nets@[n].endpoints@[e]).comp < self.comps@.len()
    }
}

} // verus!
