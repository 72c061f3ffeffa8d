//! The evaluated design that schematics are generated from.

use vstd::prelude::*;
use crate::anchors::below;
use crate::geometry::MirrorAxis;
use crate::order::{
    indices, lemma_sorted_items, natural_compare, natural_order, sort_by, sorted_by, upto,
};
use crate::sexpr::Sexpr;
use crate::text::{append_chars, chars_of, text_of};
use crate::units::Iu;

verus! {

/// What an instance is.
#[derive(Clone, Copy, Debug, PartialEq, Eq, Structural)]
pub enum InstanceKind {
    Module,
    Component,
    Interface,
    Port,
    Pin,
}

/// The value of an attribute.
#[derive(Debug)]
pub enum AttributeValue {
    Text(String),
    Flag(bool),
    List(Vec<AttributeValue>),
    /// A number or a nested value.
    Other,
}

/// A named child of an instance.
#[derive(Debug)]
pub struct Child {
    pub name: String,
    /// Index of the instance; one that does not exist is passed over.
    pub instance: usize,
}

/// The symbol that a component carries.
#[derive(Debug)]
pub struct SymbolSource {
    /// The symbol block as written.
    pub text: String,
    /// The block as a tree, where the text is one.
    pub tree: Option<Sexpr>,
}

/// A position set by hand: the corner of the symbol, and the rotation clockwise in degrees.
#[derive(Clone, Copy, Debug, PartialEq, Eq, Structural)]
pub struct Position {
    pub x: Iu,
    pub y: Iu,
    pub rotation: i32,
    pub mirror: Option<MirrorAxis>,
}

/// A position set by hand, with the key of what it is for.
#[derive(Debug)]
pub struct SymbolPosition {
    pub key: String,
    pub position: Position,
}

/// A module, a component, or a port of a component.
#[derive(Debug)]
pub struct Instance {
    pub kind: InstanceKind,
    /// Names from the root down to this instance.
    pub path: Vec<String>,
    pub children: Vec<Child>,
    pub reference_designator: Option<String>,
    pub symbol: Option<SymbolSource>,
    /// File that the symbol was read from.
    pub symbol_path: Option<String>,
    pub component_type: Option<String>,
    pub prefix: Option<String>,
    pub role: Option<String>,
    pub anchor: Option<String>,
    pub side: Option<String>,
    pub edge: Option<String>,
    pub footprint: Option<String>,
    pub mpn: Option<String>,
    /// The value as it is shown.
    pub value: Option<String>,
    /// The value attribute as it was written.
    pub value_attr: Option<String>,
    pub capacitance: Option<String>,
    pub datasheet: Option<String>,
    pub description: Option<String>,
    pub dnp: bool,
    /// Pads of a port.
    pub pads: Option<AttributeValue>,
    /// Draw the module on the sheet of its parent.
    pub embed: bool,
    /// Draw the module on a sheet of its own.
    pub collapse: bool,
    /// Positions set by hand in the module.
    pub symbol_positions: Vec<SymbolPosition>,
}

/// A port on a net.
#[derive(Clone, Copy, Debug, PartialEq, Eq, Structural)]
pub struct NetPort {
    /// Index of the port's instance.
    pub port: usize,
    /// Index of the component that the port belongs to.
    pub owner: Option<usize>,
}

/// A net of the evaluated design.
#[derive(Debug)]
pub struct Net {
    pub name: String,
    pub kind: String,
    pub ports: Vec<NetPort>,
}

/// The evaluated design: a tree of instances, and the nets between them.
#[derive(Debug)]
pub struct Schematic {
    /// Index of the root module.
    pub root: usize,
    pub instances: Vec<Instance>,
    pub nets: Vec<Net>,
}

impl Schematic {
    /// The root exists, and every instance is listed before its children.
    pub open spec fn wf(&self) -> bool {
        &&& self.root < self.instances@.len()
        &&& forall|i: int, c: int|
            0 <= i < self.instances@.len() && 0 <= c < self.instances@[i].children@.len() ==> (
            #[trigger] self.instances@[i].children@[c]).instance > i
    }
}

/// The first `n` names joined by dots.
pub open spec fn dotted_upto(path: Seq<String>, n: int) -> Seq<char>
    decreases n,
{
    if n <= 0 || n > path.len() {
        Seq::empty()
    } else if n == 1 {
        path[0]@
    } else {
        dotted_upto(path, n - 1) + seq!['.'] + path[n - 1]@
    }
}

/// A path as one text.
pub open spec fn dotted(path: Seq<String>) -> Seq<char> {
    dotted_upto(path, path.len() as int)
}

pub fn dotted_path(path: &Vec<String>) -> (r: String)
    ensures
        r@ == dotted(path@),
{
    let mut out: Vec<char> = Vec::new();
    let mut n: usize = 0;
    while n < path.len()
        invariant
            n <= path.len(),
            out@ == dotted_upto(path@, n as int),
        decreases path.len() - n,
    {
        let ghost before = out@;
        if n > 0 {
            out.push('.');
        }
        append_chars(&mut out, &chars_of(path[n].as_str()));
        n = n + 1;
        proof {
            if n == 1 {
                assert(out@ =~= path@[0]@);
            } else {
                assert(out@ =~= before + seq!['.'] + path@[n - 1]@);
            }
        }
    }
    text_of(&out)
}

/// The same names.
pub fn copy_path(path: &Vec<String>) -> (r: Vec<String>)
    ensures
        r@ == path@,
{
    let mut out: Vec<String> = Vec::new();
    let mut n: usize = 0;
    while n < path.len()
        invariant
            n <= path.len(),
            out@ =~= path@.take(n as int),
        decreases path.len() - n,
    {
        out.push(path[n].clone());
        n = n + 1;
    }
    proof {
        assert(out@ =~= path@);
    }
    out
}

/// The texts among the first `n` values.
pub open spec fn strings_upto(values: Seq<AttributeValue>, n: int) -> Seq<String>
    decreases n,
{
    if n <= 0 || n > values.len() {
        Seq::empty()
    } else {
        match values[n - 1] {
            AttributeValue::Text(s) => strings_upto(values, n - 1).push(s),
            _ => strings_upto(values, n - 1),
        }
    }
}

/// The pads of a port: the texts of its list of pads.
pub open spec fn pads(inst: Instance) -> Seq<String> {
    match inst.pads {
        Some(AttributeValue::List(values)) => strings_upto(values@, values@.len() as int),
        _ => Seq::empty(),
    }
}

/// The pads of a port.
pub fn pads_of(inst: &Instance) -> (r: Vec<String>)
    ensures
        r@ == pads(*inst),
{
    let mut out: Vec<String> = Vec::new();
    match &inst.pads {
        Some(AttributeValue::List(values)) => {
            let mut n: usize = 0;
            while n < values.len()
                invariant
                    n <= values.len(),
                    out@ == strings_upto(values@, n as int),
                decreases values.len() - n,
            {
                match &values[n] {
                    AttributeValue::Text(s) => {
                        out.push(s.clone());
                    },
                    _ => {},
                }
                n = n + 1;
            }
        },
        _ => {},
    }
    out
}

/// Child `a` comes behind child `c` in the natural order of their names.
pub open spec fn child_behind(children: Seq<Child>) -> spec_fn(usize, usize) -> bool {
    |a: usize, c: usize| natural_order(children[a as int].name@, children[c as int].name@) > 0
}

/// The children in the natural order of their names.
pub open spec fn child_order(children: Seq<Child>) -> Seq<usize> {
    sorted_by(upto(children.len() as int), child_behind(children))
}

pub fn order_children(children: &Vec<Child>) -> (r: Vec<usize>)
    ensures
        r@ == child_order(children@),
        r@.len() == children@.len(),
        below(r@, children@.len() as int),
{
    let all: Vec<usize> = indices(children.len());
    let after = |a: usize, c: usize| -> (r: bool)
        requires
            a < children@.len(),
            c < children@.len(),
        ensures
            r == (natural_order(children@[a as int].name@, children@[c as int].name@) > 0),
        { natural_compare(children[a].name.as_str(), children[c].name.as_str()) > 0 };
    let r: Vec<usize> = sort_by(&all, after, Ghost(child_behind(children@)));
    proof {
        lemma_sorted_items(all@, child_behind(children@), |i: usize| i < children@.len());
        assert forall|i: int| 0 <= i < r@.len() implies #[trigger] r@[i] < children@.len() by {
            assert((|i: usize| i < children@.len())(r@[i]));
        }
    }
    r
}

} // verus!
