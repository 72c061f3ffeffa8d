//! The sheet while it is being wired: what is drawn so far, and how labels are added to it.

use vstd::prelude::*;
use crate::config::SchConfig;
use crate::geometry::BBox;
use crate::glyphs::{
    hier_box, hier_text_box, label_box, label_rotation, label_text_box, net_label_rotation,
};
use crate::model::DesignModel;
use crate::place::{
    label_stub_len, label_text_width, spec_stub_len, text_width, SheetModel,
};
use crate::registry::{
    crossings, label_clear, path_clear, with_path, Corridor, NetBox, Reg, RegView,
};
use crate::sheets::SheetPlan;
use crate::units::{apart, greater, sat, shift, spec_apart, spec_max, spec_shift, to_iu, Point};
use crate::warning::Warning;
use crate::wiring::{length_upto, lemma_paths_push, path_length, paths};
use crate::writer::PortDirection;

verus! {

/// A local label.
#[derive(Debug)]
pub struct NetLabel {
    pub net: String,
    pub at: Point,
    pub rotation: i32,
}

/// A label that joins nets across all sheets.
#[derive(Debug)]
pub struct GlobalLabel {
    pub net: String,
    pub at: Point,
    pub rotation: i32,
    pub direction: PortDirection,
}

/// A label that joins a net to the parent sheet.
#[derive(Debug)]
pub struct HierLabel {
    pub net: String,
    pub direction: PortDirection,
    pub at: Point,
    pub rotation: i32,
}

/// A symbol that joins a pin to a rail.
#[derive(Debug)]
pub struct PowerSymbol {
    pub net: String,
    pub at: Point,
    pub down: bool,
}

/// A flag that declares a rail driven.
#[derive(Clone, Copy, Debug, PartialEq, Eq, Structural)]
pub struct PwrFlag {
    pub at: Point,
    pub rotation: i32,
}

/// Part of the sheet that an outline encloses.
#[derive(Clone, Copy, Debug, PartialEq, Eq, Structural)]
pub enum ZoneKind {
    Functional,
    Decoupling,
    Erc,
}

/// A titled outline.
#[derive(Clone, Copy, Debug, PartialEq, Eq, Structural)]
pub struct Zone {
    pub bbox: BBox,
    pub kind: ZoneKind,
}

/// A pin of a child sheet's block.
#[derive(Debug)]
pub struct BlockPin {
    pub net: String,
    pub direction: PortDirection,
    pub at: Point,
}

/// The block of a child sheet.
#[derive(Debug)]
pub struct BlockModel {
    /// Index of the child sheet in the plan.
    pub sheet: usize,
    pub at: Point,
    /// Width and height.
    pub size: Point,
    pub pins: Vec<BlockPin>,
}

pub struct BlockView {
    pub sheet: usize,
    pub at: Point,
    pub size: Point,
    pub pins: Seq<BlockPin>,
}

impl View for BlockModel {
    type V = BlockView;

    open spec fn view(&self) -> BlockView {
        BlockView { sheet: self.sheet, at: self.at, size: self.size, pins: self.pins@ }
    }
}

pub open spec fn blocks_view(blocks: Seq<BlockModel>) -> Seq<BlockView> {
    Seq::new(blocks.len(), |i: int| blocks[i]@)
}

/// Everything routed on one sheet.
#[derive(Debug)]
pub struct RoutedSheet {
    pub wires: Vec<Vec<Point>>,
    pub junctions: Vec<Point>,
    pub net_labels: Vec<NetLabel>,
    pub global_labels: Vec<GlobalLabel>,
    pub hier_labels: Vec<HierLabel>,
    pub power_symbols: Vec<PowerSymbol>,
    pub pwr_flags: Vec<PwrFlag>,
    pub no_connects: Vec<Point>,
    pub blocks: Vec<BlockModel>,
    pub zones: Vec<Zone>,
    /// Box of everything that is drawn.
    pub extents: BBox,
}

/// One endpoint of a net: where its pin ends, and which way the pin points.
#[derive(Debug)]
pub struct Endpoint {
    /// Index of the placed component.
    pub placed: usize,
    pub pad: String,
    pub pos: Point,
    pub dir: Point,
}

pub fn copy_endpoint(e: &Endpoint) -> (r: Endpoint)
    ensures
        r == *e,
{
    Endpoint { placed: e.placed, pad: e.pad.clone(), pos: e.pos, dir: e.dir }
}

pub fn copy_endpoints(v: &Vec<Endpoint>) -> (r: Vec<Endpoint>)
    ensures
        r@ == v@,
{
    let mut out: Vec<Endpoint> = Vec::new();
    let mut i: usize = 0;
    while i < v.len()
        invariant
            i <= v.len(),
            out@ =~= v@.take(i as int),
        decreases v.len() - i,
    {
        out.push(copy_endpoint(&v[i]));
        i = i + 1;
    }
    proof {
        assert(out@ =~= v@);
    }
    out
}

pub fn copy_path(p: &Vec<Point>) -> (r: Vec<Point>)
    ensures
        r@ == p@,
{
    p.clone()
}

/// What does not change while a sheet is wired.
#[derive(Clone, Copy)]
pub struct Scene<'a> {
    pub cfg: &'a SchConfig,
    pub design: &'a DesignModel,
    pub model: &'a SheetModel,
    pub plan: &'a SheetPlan,
    pub corridors: &'a [Corridor],
}

impl<'a> Scene<'a> {
    pub open spec fn wf(self) -> bool {
        self.cfg.wf() && self.model.wf(*self.design) && self.model.sheet < self.plan.sheets@.len()
            && self.plan.links_wf(*self.design)
    }
}

/// The sheet so far.
#[derive(Debug)]
pub struct Canvas {
    pub reg: Reg,
    pub out: RoutedSheet,
    /// Ports that have their hierarchical label.
    pub port_anchored: Vec<String>,
    pub warnings: Vec<Warning>,
}

/// The contents of a [`Canvas`].
pub struct Drawing {
    pub reg: RegView,
    pub wires: Seq<Seq<Point>>,
    pub junctions: Seq<Point>,
    pub net_labels: Seq<NetLabel>,
    pub global_labels: Seq<GlobalLabel>,
    pub hier_labels: Seq<HierLabel>,
    pub power_symbols: Seq<PowerSymbol>,
    pub pwr_flags: Seq<PwrFlag>,
    pub no_connects: Seq<Point>,
    pub blocks: Seq<BlockView>,
    pub zones: Seq<Zone>,
    pub extents: BBox,
    pub anchored: Seq<String>,
    pub warnings: Seq<Warning>,
}

impl View for Canvas {
    type V = Drawing;

    open spec fn view(&self) -> Drawing {
        Drawing {
            reg: self.reg@,
            wires: paths(self.out.wires@),
            junctions: self.out.junctions@,
            net_labels: self.out.net_labels@,
            global_labels: self.out.global_labels@,
            hier_labels: self.out.hier_labels@,
            power_symbols: self.out.power_symbols@,
            pwr_flags: self.out.pwr_flags@,
            no_connects: self.out.no_connects@,
            blocks: blocks_view(self.out.blocks@),
            zones: self.out.zones@,
            extents: self.out.extents,
            anchored: self.port_anchored@,
            warnings: self.warnings@,
        }
    }
}

// ---------------------------------------------------------------- single additions

impl Drawing {
    /// With the path registered as wires of `net`, but not drawn.
    pub open spec fn registered(self, path: Seq<Point>, net: String) -> Drawing {
        Drawing {
            reg: RegView { segs: with_path(self.reg.segs, path, net), ..self.reg },
            ..self
        }
    }

    /// With the path drawn and registered.
    pub open spec fn wired(self, path: Seq<Point>, net: String) -> Drawing {
        Drawing { wires: self.wires.push(path), ..self.registered(path, net) }
    }

    /// With the box kept free for a text of `net`.
    pub open spec fn reserved(self, bbox: BBox, net: String) -> Drawing {
        Drawing {
            reg: RegView {
                label_boxes: self.reg.label_boxes.push(NetBox { bbox, net }),
                ..self.reg
            },
            ..self
        }
    }

    /// With the box taken by a power symbol of `net`.
    pub open spec fn occupied(self, bbox: BBox, net: String) -> Drawing {
        Drawing {
            reg: RegView {
                power_boxes: self.reg.power_boxes.push(NetBox { bbox, net }),
                ..self.reg
            },
            ..self
        }
    }

    pub open spec fn warned(self, w: Warning) -> Drawing {
        Drawing { warnings: self.warnings.push(w), ..self }
    }
}

impl Canvas {
    pub fn new(reg: Reg) -> (r: Canvas)
        ensures
            r@ == (Drawing {
                reg: reg@,
                wires: Seq::empty(),
                junctions: Seq::empty(),
                net_labels: Seq::empty(),
                global_labels: Seq::empty(),
                hier_labels: Seq::empty(),
                power_symbols: Seq::empty(),
                pwr_flags: Seq::empty(),
                no_connects: Seq::empty(),
                blocks: Seq::empty(),
                zones: Seq::empty(),
                extents: crate::geometry::empty_box(),
                anchored: Seq::empty(),
                warnings: Seq::empty(),
            }),
    {
        let c: Canvas = Canvas {
            reg,
            out: RoutedSheet {
                wires: Vec::new(),
                junctions: Vec::new(),
                net_labels: Vec::new(),
                global_labels: Vec::new(),
                hier_labels: Vec::new(),
                power_symbols: Vec::new(),
                pwr_flags: Vec::new(),
                no_connects: Vec::new(),
                blocks: Vec::new(),
                zones: Vec::new(),
                extents: BBox::empty(),
            },
            port_anchored: Vec::new(),
            warnings: Vec::new(),
        };
        proof {
            assert(c@.wires =~= Seq::empty());
            assert(c@.blocks =~= Seq::empty());
        }
        c
    }

    pub fn register(&mut self, path: &Vec<Point>, net: &String)
        ensures
            final(self)@ == old(self)@.registered(path@, *net),
    {
        self.reg.register_path(path, net);
    }

    /// Draw the path as a wire of `net`.
    pub fn wire(&mut self, path: Vec<Point>, net: &String)
        ensures
            final(self)@ == old(self)@.wired(path@, *net),
    {
        self.reg.register_path(&path, net);
        proof {
            lemma_paths_push(self.out.wires@, path);
        }
        self.out.wires.push(path);
    }

    pub fn reserve(&mut self, bbox: BBox, net: &String)
        ensures
            final(self)@ == old(self)@.reserved(bbox, *net),
    {
        self.reg.label_boxes.push(NetBox { bbox, net: net.clone() });
    }

    pub fn occupy(&mut self, bbox: BBox, net: &String)
        ensures
            final(self)@ == old(self)@.occupied(bbox, *net),
    {
        self.reg.power_boxes.push(NetBox { bbox, net: net.clone() });
    }

    pub fn warn(&mut self, w: Warning)
        ensures
            final(self)@ == old(self)@.warned(w),
    {
        self.warnings.push(w);
    }
}

/// Is there a junction at this point?
pub open spec fn has_junction(junctions: Seq<Point>, at: Point) -> bool {
    exists|i: int| 0 <= i < junctions.len() && #[trigger] junctions[i] == at
}

impl Drawing {
    /// With a junction at the point; a second one is not added.
    pub open spec fn joined(self, at: Point) -> Drawing {
        if has_junction(self.junctions, at) {
            self
        } else {
            Drawing { junctions: self.junctions.push(at), ..self }
        }
    }
}

impl Canvas {
    pub fn push_junction(&mut self, at: Point)
        ensures
            final(self)@ == old(self)@.joined(at),
    {
        let mut i: usize = 0;
        while i < self.out.junctions.len()
            invariant
                i <= self.out.junctions.len(),
                *self == *old(self),
                forall|k: int| 0 <= k < i ==> #[trigger] self.out.junctions@[k] != at,
            decreases self.out.junctions.len() - i,
        {
            if self.out.junctions[i] == at {
                return;
            }
            i = i + 1;
        }
        self.out.junctions.push(at);
    }
}

/// Is the net among the listed ones?
pub open spec fn lists(names: Seq<String>, net: Seq<char>) -> bool {
    exists|i: int| 0 <= i < names.len() && (#[trigger] names[i])@ == net
}

pub fn list_has(names: &Vec<String>, net: &String) -> (r: bool)
    ensures
        r == lists(names@, net@),
{
    let mut i: usize = 0;
    while i < names.len()
        invariant
            i <= names.len(),
            forall|k: int| 0 <= k < i ==> (#[trigger] names@[k])@ != net@,
        decreases names.len() - i,
    {
        if names[i] == *net {
            return true;
        }
        i = i + 1;
    }
    false
}

// ---------------------------------------------------------------- taking wiring back

/// How much wiring there was at some moment.
#[derive(Clone, Copy, Debug, PartialEq, Eq, Structural)]
pub struct WiringSnapshot {
    pub wires: usize,
    pub segs: usize,
    pub junctions: usize,
    pub net_labels: usize,
    pub global_labels: usize,
    pub hier_labels: usize,
    pub label_boxes: usize,
}

/// The first `n` items, or all of them where there are fewer.
pub open spec fn first_items<T>(s: Seq<T>, n: int) -> Seq<T> {
    if n < s.len() {
        s.take(n)
    } else {
        s
    }
}

impl Drawing {
    pub open spec fn marks(self, s: WiringSnapshot) -> bool {
        &&& s.wires == self.wires.len()
        &&& s.segs == self.reg.segs.len()
        &&& s.junctions == self.junctions.len()
        &&& s.net_labels == self.net_labels.len()
        &&& s.global_labels == self.global_labels.len()
        &&& s.hier_labels == self.hier_labels.len()
        &&& s.label_boxes == self.reg.label_boxes.len()
    }

    /// With the wiring cut back to what there was at the snapshot.
    pub open spec fn rolled_back(self, s: WiringSnapshot) -> Drawing {
        Drawing {
            reg: RegView {
                segs: first_items(self.reg.segs, s.segs as int),
                label_boxes: first_items(self.reg.label_boxes, s.label_boxes as int),
                ..self.reg
            },
            wires: first_items(self.wires, s.wires as int),
            junctions: first_items(self.junctions, s.junctions as int),
            net_labels: first_items(self.net_labels, s.net_labels as int),
            global_labels: first_items(self.global_labels, s.global_labels as int),
            hier_labels: first_items(self.hier_labels, s.hier_labels as int),
            ..self
        }
    }

    /// Nothing that was wired before is missing or changed.
    pub open spec fn extends_wiring(self, before: Drawing) -> bool {
        &&& before.wires.is_prefix_of(self.wires)
        &&& before.reg.segs.is_prefix_of(self.reg.segs)
        &&& before.junctions.is_prefix_of(self.junctions)
        &&& before.net_labels.is_prefix_of(self.net_labels)
        &&& before.global_labels.is_prefix_of(self.global_labels)
        &&& before.hier_labels.is_prefix_of(self.hier_labels)
        &&& before.reg.label_boxes.is_prefix_of(self.reg.label_boxes)
    }

    /// The same in everything that a roll-back does not touch.
    pub open spec fn same_rest(self, other: Drawing) -> bool {
        &&& self.reg.pins == other.reg.pins
        &&& self.reg.power_boxes == other.reg.power_boxes
        &&& self.reg.text_boxes == other.reg.text_boxes
        &&& self.power_symbols == other.power_symbols
        &&& self.pwr_flags == other.pwr_flags
        &&& self.no_connects == other.no_connects
        &&& self.blocks == other.blocks
        &&& self.zones == other.zones
        &&& self.extents == other.extents
        &&& self.anchored == other.anchored
        &&& self.warnings == other.warnings
    }
}

/// Rolling back to a snapshot undoes every addition of wiring made since.
pub proof fn law_rollback_undoes(before: Drawing, after: Drawing, s: WiringSnapshot)
    requires
        before.marks(s),
        after.extends_wiring(before),
        after.same_rest(before),
    ensures
        after.rolled_back(s) == before,
{
    assert(after.rolled_back(s).wires =~= before.wires);
    assert(after.rolled_back(s).reg.segs =~= before.reg.segs);
    assert(after.rolled_back(s).reg.label_boxes =~= before.reg.label_boxes);
    assert(after.rolled_back(s).junctions =~= before.junctions);
    assert(after.rolled_back(s).net_labels =~= before.net_labels);
    assert(after.rolled_back(s).global_labels =~= before.global_labels);
    assert(after.rolled_back(s).hier_labels =~= before.hier_labels);
}

impl Canvas {
    pub fn snapshot_wiring(&self) -> (s: WiringSnapshot)
        ensures
            self@.marks(s),
    {
        WiringSnapshot {
            wires: self.out.wires.len(),
            segs: self.reg.segs.len(),
            junctions: self.out.junctions.len(),
            net_labels: self.out.net_labels.len(),
            global_labels: self.out.global_labels.len(),
            hier_labels: self.out.hier_labels.len(),
            label_boxes: self.reg.label_boxes.len(),
        }
    }

    pub fn rollback_wiring(&mut self, s: &WiringSnapshot)
        ensures
            final(self)@ == old(self)@.rolled_back(*s),
    {
        let ghost before = self@;
        let ghost wires = self.out.wires@;
        self.out.wires.truncate(s.wires);
        self.reg.segs.truncate(s.segs);
        self.out.junctions.truncate(s.junctions);
        self.out.net_labels.truncate(s.net_labels);
        self.out.global_labels.truncate(s.global_labels);
        self.out.hier_labels.truncate(s.hier_labels);
        self.reg.label_boxes.truncate(s.label_boxes);
        proof {
            let r = before.rolled_back(*s);
            assert(self@.wires =~= r.wires);
            assert(self@.reg.segs =~= r.reg.segs);
            assert(self@.reg.label_boxes =~= r.reg.label_boxes);
            assert(self@.junctions =~= r.junctions);
            assert(self@.net_labels =~= r.net_labels);
            assert(self@.global_labels =~= r.global_labels);
            assert(self@.hier_labels =~= r.hier_labels);
        }
    }
}

// ---------------------------------------------------------------- stubs that carry a label

/// A stub with the place and rotation of its label.
#[derive(Debug)]
pub struct Stub {
    pub path: Vec<Point>,
    pub at: Point,
    pub rotation: i32,
    /// The endpoint that the stub starts from.
    pub from: usize,
    /// The placed component of that endpoint.
    pub placed: usize,
}

pub struct StubView {
    pub path: Seq<Point>,
    pub at: Point,
    pub rotation: i32,
    pub from: usize,
    pub placed: usize,
}

impl View for Stub {
    type V = StubView;

    open spec fn view(&self) -> StubView {
        StubView {
            path: self.path@,
            at: self.at,
            rotation: self.rotation,
            from: self.from,
            placed: self.placed,
        }
    }
}

pub open spec fn stubs(v: Seq<Stub>) -> Seq<StubView> {
    Seq::new(v.len(), |i: int| v[i]@)
}

/// Which label a stub carries.
#[derive(Clone, Copy, Debug, PartialEq, Eq, Structural)]
pub enum StubKind {
    Local,
    Global,
    Hier,
}

/// The number of the elbow stub that is tried at place `i`: those of hierarchical labels shortest
/// first, the others as they are numbered.
pub open spec fn elbow_at(kind: StubKind, i: int) -> int {
    if kind != StubKind::Hier {
        i
    } else if i < 2 {
        8 + 2 * i
    } else if i < 4 {
        2 * (i - 2)
    } else if i < 6 {
        9 + 2 * (i - 4)
    } else if i < 8 {
        1 + 2 * (i - 6)
    } else if i < 10 {
        4 + 2 * (i - 8)
    } else {
        5 + 2 * (i - 10)
    }
}

fn elbow_number(kind: StubKind, i: i64) -> (r: i64)
    requires
        0 <= i < 12,
    ensures
        r == elbow_at(kind, i as int),
        0 <= r < 12,
{
    if kind != StubKind::Hier {
        i
    } else if i < 2 {
        8 + 2 * i
    } else if i < 4 {
        2 * (i - 2)
    } else if i < 6 {
        9 + 2 * (i - 4)
    } else if i < 8 {
        1 + 2 * (i - 6)
    } else if i < 10 {
        4 + 2 * (i - 8)
    } else {
        5 + 2 * (i - 10)
    }
}

/// Length of the vertical leg of elbow stub `i`.
pub open spec fn elbow_rise(cfg: SchConfig, i: int) -> int {
    if i / 4 == 0 {
        cfg.stub_mm + 25400
    } else if i / 4 == 1 {
        cfg.stub_mm + 50800
    } else {
        cfg.stub_mm as int
    }
}

/// Length of the horizontal leg of elbow stub `i` for a name of `n` characters.
pub open spec fn elbow_run(cfg: SchConfig, n: int, kind: StubKind, i: int) -> int {
    if kind == StubKind::Hier {
        cfg.label_elbow_mm + 25400 * (1 + i % 2)
    } else {
        cfg.spec_snap_up(spec_max(cfg.label_elbow_mm as int, text_width(n) as int) + 25400 * (i % 2))
            as int
    }
}

/// Rotation of a label at the end of a stub that runs right, or left.
pub open spec fn stub_rotation(kind: StubKind, right: bool) -> i32 {
    let outward: int = if right {
        0
    } else {
        180
    };
    label_rotation(kind != StubKind::Local, outward) as i32
}

/// Elbow stub `i` of a pin that points up or down: right first, then left.
pub open spec fn elbow_stub(
    cfg: SchConfig,
    n: int,
    ep: Endpoint,
    from: usize,
    kind: StubKind,
    i: int,
) -> StubView {
    let right = (i / 2) % 2 == 0;
    let knee = Point {
        x: ep.pos.x,
        y: spec_shift(ep.pos.y as int, ep.dir.y as int, elbow_rise(cfg, i)),
    };
    let run = elbow_run(cfg, n, kind, i);
    let end = Point {
        x: sat(
            if right {
                knee.x + run
            } else {
                knee.x - run
            },
        ),
        y: knee.y,
    };
    StubView {
        path: seq![ep.pos, knee, end],
        at: end,
        rotation: stub_rotation(kind, right),
        from,
        placed: ep.placed,
    }
}

/// Straight stub `i` of a pin that points sideways, each longer than the one before.
pub open spec fn straight_stub(
    cfg: SchConfig,
    n: int,
    ep: Endpoint,
    from: usize,
    kind: StubKind,
    i: int,
) -> StubView {
    let end = Point {
        x: spec_shift(ep.pos.x as int, ep.dir.x as int, spec_stub_len(cfg, n) + 25400 * i),
        y: ep.pos.y,
    };
    StubView {
        path: seq![ep.pos, end],
        at: end,
        rotation: stub_rotation(kind, ep.dir.x >= 0),
        from,
        placed: ep.placed,
    }
}

/// The stubs that may carry a label, in order of preference.
pub open spec fn stub_candidates(
    cfg: SchConfig,
    n: int,
    ep: Endpoint,
    from: usize,
    kind: StubKind,
) -> Seq<StubView> {
    if ep.dir.y != 0 {
        Seq::new(12, |i: int| elbow_stub(cfg, n, ep, from, kind, elbow_at(kind, i)))
    } else {
        Seq::new(6, |i: int| straight_stub(cfg, n, ep, from, kind, i))
    }
}

/// The pin points along an axis, no configured length is negative, and no stub of a hierarchical
/// label reaches the end of the coordinates.
pub open spec fn has_room(cfg: SchConfig, n: int, ep: Endpoint) -> bool {
    &&& cfg.stub_mm >= 0
    &&& cfg.label_elbow_mm >= 0
    &&& if ep.dir.y != 0 {
        &&& ep.dir.y == 1 || ep.dir.y == -1
        &&& i32::MIN <= ep.pos.x - cfg.label_elbow_mm - 50800
        &&& ep.pos.x + cfg.label_elbow_mm + 50800 <= i32::MAX
        &&& i32::MIN <= ep.pos.y - cfg.stub_mm - 50800
        &&& ep.pos.y + cfg.stub_mm + 50800 <= i32::MAX
    } else {
        &&& ep.dir.x == 1 || ep.dir.x == -1
        &&& spec_stub_len(cfg, n) >= 0
        &&& i32::MIN <= ep.pos.x - spec_stub_len(cfg, n) - 127000
        &&& ep.pos.x + spec_stub_len(cfg, n) + 127000 <= i32::MAX
    }
}

/// The stubs of a hierarchical label come shortest first.
pub proof fn law_port_stubs_shortest_first(cfg: SchConfig, n: int, ep: Endpoint, from: usize, i: int)
    requires
        has_room(cfg, n, ep),
        0 <= i < stub_candidates(cfg, n, ep, from, StubKind::Hier).len() - 1,
    ensures
        path_length(stub_candidates(cfg, n, ep, from, StubKind::Hier)[i].path) <= path_length(
            stub_candidates(cfg, n, ep, from, StubKind::Hier)[i + 1].path,
        ),
{
    reveal_with_fuel(length_upto, 3);
    let c = stub_candidates(cfg, n, ep, from, StubKind::Hier);
    if ep.dir.y != 0 {
        let a = elbow_at(StubKind::Hier, i);
        let b = elbow_at(StubKind::Hier, i + 1);
        lemma_elbow_length(cfg, n, ep, from, a);
        lemma_elbow_length(cfg, n, ep, from, b);
    } else {
        lemma_straight_length(cfg, n, ep, from, i);
        lemma_straight_length(cfg, n, ep, from, i + 1);
    }
}

/// A stub with an elbow leaves its pin straight, along the pin, for at least the length of a stub
/// before it turns.
pub proof fn law_elbow_exits_straight(
    cfg: SchConfig,
    n: int,
    ep: Endpoint,
    from: usize,
    kind: StubKind,
    i: int,
)
    requires
        has_room(cfg, n, ep),
        ep.dir.y != 0,
        0 <= i < 12,
    ensures
        ({
            let p = stub_candidates(cfg, n, ep, from, kind)[i].path;
            &&& p[0] == ep.pos
            &&& p[1].x == ep.pos.x
            &&& ep.dir.y == 1 ==> p[1].y - ep.pos.y >= cfg.stub_mm
            &&& ep.dir.y == -1 ==> ep.pos.y - p[1].y >= cfg.stub_mm
        }),
{
    let rise = elbow_rise(cfg, elbow_at(kind, i));
    assert(ep.dir.y == 1 ==> ep.dir.y * rise == rise) by (nonlinear_arith);
    assert(ep.dir.y == -1 ==> ep.dir.y * rise == -rise) by (nonlinear_arith);
}

proof fn lemma_elbow_length(cfg: SchConfig, n: int, ep: Endpoint, from: usize, i: int)
    requires
        has_room(cfg, n, ep),
        ep.dir.y != 0,
        0 <= i < 12,
    ensures
        path_length(elbow_stub(cfg, n, ep, from, StubKind::Hier, i).path) == elbow_rise(cfg, i)
            + elbow_run(cfg, n, StubKind::Hier, i),
{
    reveal_with_fuel(length_upto, 3);
    let rise = elbow_rise(cfg, i);
    let run = elbow_run(cfg, n, StubKind::Hier, i);
    assert(ep.dir.y * rise == if ep.dir.y == 1 {
        rise
    } else {
        -rise
    }) by (nonlinear_arith)
        requires
            ep.dir.y == 1 || ep.dir.y == -1,
    ;
    let p = elbow_stub(cfg, n, ep, from, StubKind::Hier, i).path;
    assert(p.len() == 3);
    assert(p[0] == ep.pos);
}

proof fn lemma_straight_length(cfg: SchConfig, n: int, ep: Endpoint, from: usize, i: int)
    requires
        has_room(cfg, n, ep),
        ep.dir.y == 0,
        0 <= i < 6,
    ensures
        path_length(straight_stub(cfg, n, ep, from, StubKind::Hier, i).path) == spec_stub_len(cfg, n)
            + 25400 * i,
{
    reveal_with_fuel(length_upto, 3);
    let len = spec_stub_len(cfg, n) + 25400 * i;
    assert(ep.dir.x * len == if ep.dir.x == 1 {
        len
    } else {
        -len
    }) by (nonlinear_arith)
        requires
            ep.dir.x == 1 || ep.dir.x == -1,
    ;
    let p = straight_stub(cfg, n, ep, from, StubKind::Hier, i).path;
    assert(p.len() == 2);
    assert(p[0] == ep.pos);
}

fn rotation_of(kind: StubKind, right: bool) -> (r: i32)
    ensures
        r == stub_rotation(kind, right),
{
    let outward: i32 = if right {
        0
    } else {
        180
    };
    net_label_rotation(kind != StubKind::Local, outward)
}

/// The stubs that may carry a label, in order of preference.
pub fn label_stubs(cfg: &SchConfig, name: &String, ep: &Endpoint, from: usize, kind: StubKind) -> (r:
    Vec<Stub>)
    requires
        cfg.wf(),
    ensures
        stubs(r@) == stub_candidates(*cfg, name@.len() as int, *ep, from, kind),
        r@.len() > 0,
        kind == StubKind::Hier && has_room(*cfg, name@.len() as int, *ep) ==> forall|i: int|
            0 <= i < r@.len() - 1 ==> path_length((#[trigger] r@[i]).path@) <= path_length(
                r@[i + 1].path@,
            ),
{
    let ghost n = name@.len() as int;
    let mut out: Vec<Stub> = Vec::new();
    if ep.dir.y != 0 {
        let wide: i64 = greater(cfg.label_elbow_mm, label_text_width(name.as_str())) as i64;
        let mut i: i64 = 0;
        while i < 12
            invariant
                0 <= i <= 12,
                cfg.wf(),
                n == name@.len(),
                wide == spec_max(cfg.label_elbow_mm as int, text_width(n) as int),
                out@.len() == i,
                forall|k: int|
                    0 <= k < i ==> (#[trigger] out@[k])@ == elbow_stub(
                        *cfg,
                        n,
                        *ep,
                        from,
                        kind,
                        elbow_at(kind, k),
                    ),
            decreases 12 - i,
        {
            let j: i64 = elbow_number(kind, i);
            let rise: i64 = if j / 4 == 0 {
                cfg.stub_mm as i64 + 25400
            } else if j / 4 == 1 {
                cfg.stub_mm as i64 + 50800
            } else {
                cfg.stub_mm as i64
            };
            let run: i64 = if kind == StubKind::Hier {
                cfg.label_elbow_mm as i64 + 25400 * (1 + j % 2)
            } else {
                cfg.snap_up(wide + 25400 * (j % 2)) as i64
            };
            let right: bool = (j / 2) % 2 == 0;
            let knee: Point = Point { x: ep.pos.x, y: shift(ep.pos.y, ep.dir.y, rise) };
            let end: Point = Point {
                x: to_iu(
                    if right {
                        knee.x as i64 + run
                    } else {
                        knee.x as i64 - run
                    },
                ),
                y: knee.y,
            };
            let path: Vec<Point> = vec![ep.pos, knee, end];
            proof {
                assert(path@ =~= seq![ep.pos, knee, end]);
            }
            out.push(
                Stub { path, at: end, rotation: rotation_of(kind, right), from, placed: ep.placed },
            );
            i = i + 1;
        }
    } else {
        let base: i64 = label_stub_len(cfg, name.as_str()) as i64;
        let mut i: i64 = 0;
        while i < 6
            invariant
                0 <= i <= 6,
                cfg.wf(),
                n == name@.len(),
                base == spec_stub_len(*cfg, n),
                out@.len() == i,
                forall|k: int|
                    0 <= k < i ==> (#[trigger] out@[k])@ == straight_stub(
                        *cfg,
                        n,
                        *ep,
                        from,
                        kind,
                        k,
                    ),
            decreases 6 - i,
        {
            let end: Point = Point { x: shift(ep.pos.x, ep.dir.x, base + 25400 * i), y: ep.pos.y };
            let path: Vec<Point> = vec![ep.pos, end];
            proof {
                assert(path@ =~= seq![ep.pos, end]);
            }
            out.push(
                Stub {
                    path,
                    at: end,
                    rotation: rotation_of(kind, ep.dir.x >= 0),
                    from,
                    placed: ep.placed,
                },
            );
            i = i + 1;
        }
    }
    proof {
        assert(stubs(out@) =~= stub_candidates(*cfg, n, *ep, from, kind));
        if kind == StubKind::Hier && has_room(*cfg, n, *ep) {
            let c = stub_candidates(*cfg, n, *ep, from, kind);
            assert forall|i: int| 0 <= i < out@.len() - 1 implies path_length(
                (#[trigger] out@[i]).path@,
            ) <= path_length(out@[i + 1].path@) by {
                law_port_stubs_shortest_first(*cfg, n, *ep, from, i);
                assert(c[i] == out@[i]@);
                assert(c[i + 1] == out@[i + 1]@);
            }
        }
    }
    out
}

// ---------------------------------------------------------------- choosing a stub

/// The path makes no contact and covers nothing on the sheet so far.
#[verifier::opaque]
pub open spec fn wire_fits(
    sc: Scene<'_>,
    d: Drawing,
    path: Seq<Point>,
    net: Seq<char>,
    except: Seq<usize>,
) -> bool {
    path_clear(d.reg, *sc.design, sc.model.placed@, path, net, except)
}

/// A text fits into the box on the sheet so far.
#[verifier::opaque]
pub open spec fn text_fits(sc: Scene<'_>, d: Drawing, b: BBox, net: Seq<char>, strict: bool) -> bool {
    label_clear(d.reg, *sc.design, sc.model.placed@, sc.corridors@, b, net, strict)
}

impl Canvas {
    pub fn wire_ok(&self, sc: &Scene, path: &Vec<Point>, net: &String, except: &Vec<usize>) -> (r:
        bool)
        requires
            sc.wf(),
        ensures
            r == wire_fits(*sc, self@, path@, net@, except@),
    {
        proof {
            reveal(wire_fits);
        }
        self.reg.path_ok(sc.design, &sc.model.placed, path, net, except)
    }

    pub fn text_ok(&self, sc: &Scene, b: &BBox, net: &String, strict: bool) -> (r: bool)
        requires
            sc.wf(),
        ensures
            r == text_fits(*sc, self@, *b, net@, strict),
    {
        proof {
            reveal(text_fits);
        }
        self.reg.label_box_clear(sc.design, &sc.model.placed, sc.corridors, b, net, strict)
    }
}

/// How well a stub fits.
#[derive(Clone, Copy, Debug, PartialEq, Eq, Structural)]
pub enum Fit {
    /// The wire can be drawn.
    Placeable,
    /// And it crosses nothing.
    Uncrossed,
    /// And its text covers nothing of another net.
    Relaxed,
    /// And its text covers no text at all; stands on its own, not on `Relaxed`.
    Strict,
}

/// Extent of the label that a stub carries.
pub open spec fn stub_box(n: int, s: StubView, kind: StubKind) -> BBox {
    if kind == StubKind::Hier {
        hier_box(n, s.at, s.rotation as int)
    } else {
        label_box(n, s.at, s.rotation as int)
    }
}

/// Does the stub fit that well?
pub open spec fn fits(
    sc: Scene<'_>,
    d: Drawing,
    s: StubView,
    net: Seq<char>,
    kind: StubKind,
    fit: Fit,
) -> bool {
    &&& wire_fits(sc, d, s.path, net, seq![s.placed])
    &&& fit == Fit::Placeable || crossings(d.reg.segs, s.path, None) == 0
    &&& fit == Fit::Relaxed ==> text_fits(sc, d, stub_box(net.len() as int, s, kind), net, false)
    &&& fit == Fit::Strict ==> text_fits(sc, d, stub_box(net.len() as int, s, kind), net, true)
}

/// Index of the first stub, at or after `i`, that fits that well.
pub open spec fn first_fit(
    sc: Scene<'_>,
    d: Drawing,
    c: Seq<StubView>,
    net: Seq<char>,
    kind: StubKind,
    fit: Fit,
    i: int,
) -> Option<int>
    decreases c.len() - i,
{
    if i < 0 || i >= c.len() {
        None
    } else if fits(sc, d, c[i], net, kind, fit) {
        Some(i)
    } else {
        first_fit(sc, d, c, net, kind, fit, i + 1)
    }
}

/// The stub to take: the first strict one, else the first relaxed one, else the first that
/// crosses nothing, else the first that can be drawn.
pub open spec fn best_stub(
    sc: Scene<'_>,
    d: Drawing,
    c: Seq<StubView>,
    net: Seq<char>,
    kind: StubKind,
) -> Option<int> {
    let strict = first_fit(sc, d, c, net, kind, Fit::Strict, 0);
    let relaxed = first_fit(sc, d, c, net, kind, Fit::Relaxed, 0);
    let uncrossed = first_fit(sc, d, c, net, kind, Fit::Uncrossed, 0);
    if strict is Some {
        strict
    } else if relaxed is Some {
        relaxed
    } else if uncrossed is Some {
        uncrossed
    } else {
        first_fit(sc, d, c, net, kind, Fit::Placeable, 0)
    }
}

impl Canvas {
    fn stub_fits(&self, sc: &Scene, s: &Stub, net: &String, kind: StubKind, fit: Fit) -> (r: bool)
        requires
            sc.wf(),
        ensures
            r == fits(*sc, self@, s@, net@, kind, fit),
    {
        let except: Vec<usize> = vec![s.placed];
        proof {
            assert(except@ =~= seq![s.placed]);
        }
        if !self.wire_ok(sc, &s.path, net, &except) {
            return false;
        }
        match fit {
            Fit::Placeable => true,
            Fit::Uncrossed => self.reg.count_crossings(&s.path) == 0,
            Fit::Relaxed | Fit::Strict => {
                if self.reg.count_crossings(&s.path) != 0 {
                    return false;
                }
                let b: BBox = if kind == StubKind::Hier {
                    hier_text_box(net.as_str(), s.at, s.rotation)
                } else {
                    label_text_box(net.as_str(), s.at, s.rotation)
                };
                self.text_ok(sc, &b, net, fit == Fit::Strict)
            },
        }
    }

    pub fn find_fit(&self, sc: &Scene, c: &Vec<Stub>, net: &String, kind: StubKind, fit: Fit) -> (r:
        Option<usize>)
        requires
            sc.wf(),
        ensures
            match r {
                Some(i) => first_fit(*sc, self@, stubs(c@), net@, kind, fit, 0) == Some(i as int)
                    && i < c@.len(),
                None => first_fit(*sc, self@, stubs(c@), net@, kind, fit, 0) is None,
            },
    {
        let mut i: usize = 0;
        while i < c.len()
            invariant
                i <= c.len(),
                sc.wf(),
                first_fit(*sc, self@, stubs(c@), net@, kind, fit, 0) == first_fit(
                    *sc,
                    self@,
                    stubs(c@),
                    net@,
                    kind,
                    fit,
                    i as int,
                ),
            decreases c.len() - i,
        {
            if self.stub_fits(sc, &c[i], net, kind, fit) {
                return Some(i);
            }
            i = i + 1;
        }
        None
    }

    pub fn choose_stub(&self, sc: &Scene, c: &Vec<Stub>, net: &String, kind: StubKind) -> (r: Option<
        usize,
    >)
        requires
            sc.wf(),
        ensures
            match r {
                Some(i) => best_stub(*sc, self@, stubs(c@), net@, kind) == Some(i as int) && i
                    < c@.len(),
                None => best_stub(*sc, self@, stubs(c@), net@, kind) is None,
            },
    {
        match self.find_fit(sc, c, net, kind, Fit::Strict) {
            Some(i) => return Some(i),
            None => {},
        }
        match self.find_fit(sc, c, net, kind, Fit::Relaxed) {
            Some(i) => return Some(i),
            None => {},
        }
        match self.find_fit(sc, c, net, kind, Fit::Uncrossed) {
            Some(i) => return Some(i),
            None => {},
        }
        self.find_fit(sc, c, net, kind, Fit::Placeable)
    }
}

// ---------------------------------------------------------------- drawing a label

impl Drawing {
    /// With the label drawn at the end of the path. A path of no length is no wire.
    pub open spec fn labelled(
        self,
        path: Seq<Point>,
        at: Point,
        rotation: i32,
        net: String,
        global: bool,
    ) -> Drawing {
        let d = if path.len() >= 2 && spec_apart(path[0], path.last()) {
            self.wired(path, net)
        } else {
            self.registered(path, net)
        };
        let d = d.reserved(label_box(net@.len() as int, at, rotation as int), net);
        if global {
            Drawing {
                global_labels: d.global_labels.push(
                    GlobalLabel { net, at, rotation, direction: PortDirection::Bidirectional },
                ),
                ..d
            }
        } else {
            Drawing { net_labels: d.net_labels.push(NetLabel { net, at, rotation }), ..d }
        }
    }

    /// With the hierarchical label of a port drawn at the end of the path.
    pub open spec fn anchored_port(
        self,
        path: Seq<Point>,
        at: Point,
        rotation: i32,
        net: String,
        direction: PortDirection,
    ) -> Drawing {
        let d = self.wired(path, net).reserved(
            hier_box(net@.len() as int, at, rotation as int),
            net,
        );
        Drawing {
            hier_labels: d.hier_labels.push(HierLabel { net, direction, at, rotation }),
            anchored: d.anchored.push(net),
            ..d
        }
    }
}

impl Canvas {
    pub fn commit_label(
        &mut self,
        net: &String,
        path: Vec<Point>,
        at: Point,
        rotation: i32,
        global: bool,
    )
        ensures
            final(self)@ == old(self)@.labelled(path@, at, rotation, *net, global),
    {
        if path.len() >= 2 && apart(path[0], path[path.len() - 1]) {
            self.wire(path, net);
        } else {
            self.register(&path, net);
        }
        self.reserve(label_text_box(net.as_str(), at, rotation), net);
        if global {
            self.out.global_labels.push(
                GlobalLabel {
                    net: net.clone(),
                    at,
                    rotation,
                    direction: PortDirection::Bidirectional,
                },
            );
        } else {
            self.out.net_labels.push(NetLabel { net: net.clone(), at, rotation });
        }
    }

    pub fn commit_hier(
        &mut self,
        net: &String,
        direction: PortDirection,
        path: Vec<Point>,
        at: Point,
        rotation: i32,
    )
        ensures
            final(self)@ == old(self)@.anchored_port(path@, at, rotation, *net, direction),
    {
        self.wire(path, net);
        self.reserve(hier_text_box(net.as_str(), at, rotation), net);
        self.out.hier_labels.push(HierLabel { net: net.clone(), direction, at, rotation });
        self.port_anchored.push(net.clone());
    }
}

/// The stub of last resort: a short one, with its label read off the end.
pub open spec fn short_stub(ep: Endpoint) -> StubView {
    if ep.dir.y != 0 {
        let end = Point {
            x: ep.pos.x,
            y: spec_shift(ep.pos.y as int, ep.dir.y as int, 25400),
        };
        StubView {
            path: seq![ep.pos, end],
            at: end,
            rotation: 0,
            from: 0,
            placed: ep.placed,
        }
    } else {
        let end = Point {
            x: spec_shift(ep.pos.x as int, ep.dir.x as int, 25400),
            y: ep.pos.y,
        };
        StubView {
            path: seq![ep.pos, end],
            at: end,
            rotation: if ep.dir.x >= 0 {
                0
            } else {
                180
            },
            from: 0,
            placed: ep.placed,
        }
    }
}

fn short_stub_of(ep: &Endpoint) -> (s: Stub)
    ensures
        s@ == short_stub(*ep),
{
    if ep.dir.y != 0 {
        let end: Point = Point { x: ep.pos.x, y: shift(ep.pos.y, ep.dir.y, 25400) };
        let path: Vec<Point> = vec![ep.pos, end];
        proof {
            assert(path@ =~= seq![ep.pos, end]);
        }
        Stub { path, at: end, rotation: 0, from: 0, placed: ep.placed }
    } else {
        let end: Point = Point { x: shift(ep.pos.x, ep.dir.x, 25400), y: ep.pos.y };
        let path: Vec<Point> = vec![ep.pos, end];
        proof {
            assert(path@ =~= seq![ep.pos, end]);
        }
        let rotation: i32 = if ep.dir.x >= 0 {
            0
        } else {
            180
        };
        Stub { path, at: end, rotation, from: 0, placed: ep.placed }
    }
}

pub open spec fn label_kind(global: bool) -> StubKind {
    if global {
        StubKind::Global
    } else {
        StubKind::Local
    }
}

/// The stub on which an endpoint's label is drawn.
pub open spec fn label_stub(
    sc: Scene<'_>,
    d: Drawing,
    net: Seq<char>,
    ep: Endpoint,
    global: bool,
) -> StubView {
    let kind = label_kind(global);
    let c = stub_candidates(*sc.cfg, net.len() as int, ep, 0, kind);
    let choice = if ep.dir.y != 0 {
        best_stub(sc, d, c, net, kind)
    } else {
        let strict = first_fit(sc, d, c, net, kind, Fit::Strict, 0);
        if strict is Some {
            strict
        } else {
            first_fit(sc, d, c, net, kind, Fit::Uncrossed, 0)
        }
    };
    match choice {
        Some(i) => c[i],
        None => short_stub(ep),
    }
}

impl Drawing {
    /// With a stub and a label on the endpoint.
    pub open spec fn with_label(self, sc: Scene<'_>, net: String, ep: Endpoint, global: bool) -> Drawing {
        let s = label_stub(sc, self, net@, ep, global);
        self.labelled(s.path, s.at, s.rotation, net, global)
    }
}

impl Canvas {
    /// Draw a stub with a label on an endpoint.
    pub fn emit_label_stub(&mut self, sc: &Scene, net: &String, ep: &Endpoint, global: bool)
        requires
            sc.wf(),
        ensures
            final(self)@ == old(self)@.with_label(*sc, *net, *ep, global),
    {
        let kind: StubKind = if global {
            StubKind::Global
        } else {
            StubKind::Local
        };
        let mut c: Vec<Stub> = label_stubs(sc.cfg, net, ep, 0, kind);
        let choice: Option<usize> = if ep.dir.y != 0 {
            self.choose_stub(sc, &c, net, kind)
        } else {
            match self.find_fit(sc, &c, net, kind, Fit::Strict) {
                Some(i) => Some(i),
                None => self.find_fit(sc, &c, net, kind, Fit::Uncrossed),
            }
        };
        let s: Stub = match choice {
            Some(i) => c.swap_remove(i),
            None => short_stub_of(ep),
        };
        self.commit_label(net, s.path, s.at, s.rotation, global);
    }
}

/// Would a local label on this endpoint have to be drawn over another net?
pub open spec fn label_cramped(sc: Scene<'_>, d: Drawing, net: Seq<char>, ep: Endpoint) -> bool {
    let c = stub_candidates(*sc.cfg, net.len() as int, ep, 0, StubKind::Local);
    let fit = if ep.dir.y != 0 {
        Fit::Placeable
    } else {
        Fit::Uncrossed
    };
    let s = short_stub(ep);
    first_fit(sc, d, c, net, StubKind::Local, fit, 0) is None && !text_fits(
        sc,
        d,
        label_box(net.len() as int, s.at, s.rotation as int),
        net,
        false,
    )
}

impl Canvas {
    /// Would a local label on this endpoint have to be drawn over another net?
    pub fn local_label_collides(&self, sc: &Scene, net: &String, ep: &Endpoint) -> (r: bool)
        requires
            sc.wf(),
        ensures
            r == label_cramped(*sc, self@, net@, *ep),
    {
        let c: Vec<Stub> = label_stubs(sc.cfg, net, ep, 0, StubKind::Local);
        let fit: Fit = if ep.dir.y != 0 {
            Fit::Placeable
        } else {
            Fit::Uncrossed
        };
        if self.find_fit(sc, &c, net, StubKind::Local, fit).is_some() {
            return false;
        }
        let s: Stub = short_stub_of(ep);
        let b: BBox = label_text_box(net.as_str(), s.at, s.rotation);
        !self.text_ok(sc, &b, net, false)
    }
}

} // verus!
