//! Placement of the components of one sheet.

use vstd::prelude::*;
use crate::anchors::{
    all_anchored, anchors_wf, below, find_band, followed, grouped, has_band, lost_anchors, lost_chains,
    resolve_anchors, resolve_groups,
};
use crate::arrange::{
    compose_group, composed, composed_said, group_box, lemma_parts_refl, pose_all, posed_all,
    sized,
};
use crate::band::{band_placed, in_band, list_band, place_band};
use crate::columns::{
    group_views, groups_wf, in_columns, place_columns, shift_one, shifted, Group, GroupView,
};
use crate::compose::{
    lemma_place_is_part, lemma_same_parts, lemma_same_parts_trans, place_satellites, same_part,
    same_parts, satellites_lost, satellites_placed,
};
use crate::config::SchConfig;
use crate::geometry::{bx, empty_box, make_box, raw_box, spec_raw_box, BBox, MirrorAxis};
use crate::model::{Comp, DesignModel, ManualPosition, NetClass, NetModel, Role, Side};
use crate::keepout::{
    content, content_box, content_upto, crowded, pinned_content_box, resolve_collisions,
    room_queue, room_upto,
};
use crate::orientation::{orient_for_wiring, oriented, roots_wf, with_placed};
use crate::sheets::{SheetDef, SheetPlan, SheetPort};
use crate::text::{boxed, width};
use crate::texts::{
    body_box_of, body_only, has_bottom, has_bottom_pins, nets_wf, Board, BoardView,
};
use crate::units::{
    gap, greater, sat, spec_gap, spec_max, spec_min, spec_steps, steps, to_iu, Iu, Point,
};
use crate::warning::Warning;
use crate::writer::PortDirection;

verus! {

/// A component placed on a sheet.
#[derive(Clone, Copy, Debug)]
pub struct PlacedComp {
    /// Index of the component in the design.
    pub comp: usize,
    pub at: Point,
    pub rotation: i32,
    pub mirror: Option<MirrorAxis>,
    /// Placed by hand: never moved against the others.
    pub pinned: bool,
    /// The placed component that this one belongs to.
    pub anchor: Option<usize>,
    /// The placed component at the end of the chain of anchors.
    pub group_root: usize,
    pub side: Side,
    pub role: Role,
    /// Body, pins and texts.
    pub bbox: BBox,
    pub ref_at: Point,
    pub value_at: Point,
    pub ref_justify_right: bool,
    pub value_justify_right: bool,
    /// Moved out of the flow into the utility band.
    pub relegated: bool,
}

/// A pad of a placed component.
#[derive(Debug)]
pub struct SheetPad {
    /// Index of the placed component.
    pub placed: usize,
    pub pad: String,
}

/// A net as it appears on one sheet.
#[derive(Debug)]
pub struct SheetNet {
    /// Index of the net in the design.
    pub net: usize,
    pub name: String,
    pub class: NetClass,
    pub endpoints: Box<[SheetPad]>,
    /// Direction of the port, where the net enters from the parent sheet.
    pub port: Option<PortDirection>,
    /// The net is a port of a child sheet.
    pub on_child_blocks: bool,
    /// Number of endpoints in the whole design.
    pub design_endpoints: usize,
}

/// A placed sheet.
#[derive(Debug)]
pub struct SheetModel {
    /// Index of the sheet in the plan.
    pub sheet: usize,
    pub placed: Box<[PlacedComp]>,
    pub nets: Box<[SheetNet]>,
    pub content_box: BBox,
    /// Decoupling and flags are drawn in a utility band.
    pub relegate: bool,
}

/// The placed components are components of the design.
pub open spec fn placed_wf(design: DesignModel, placed: Seq<PlacedComp>) -> bool {
    forall|i: int| 0 <= i < placed.len() ==> (#[trigger] placed[i]).comp < design.comps@.len()
}

/// Box of the body and pins of a placed component.
pub open spec fn body_of(design: DesignModel, p: PlacedComp) -> BBox {
    spec_raw_box(design.comps@[p.comp as int].geom, p.at, p.rotation as int, p.mirror)
}

pub fn raw_box_of(design: &DesignModel, p: &PlacedComp) -> (b: BBox)
    requires
        p.comp < design.comps@.len(),
    ensures
        b == body_of(*design, *p),
{
    raw_box(&design.comps[p.comp].geom, p.at, p.rotation, p.mirror)
}

impl SheetModel {
    pub open spec fn wf(&self, design: DesignModel) -> bool {
        &&& placed_wf(design, self.placed@)
        &&& forall|i: int|
            0 <= i < self.placed@.len() ==> (#[trigger] self.placed@[i]).group_root
                < self.placed@.len()
        &&& forall|n: int|
            0 <= n < self.nets@.len() ==> (#[trigger] self.nets@[n]).net < design.nets@.len()
        &&& forall|n: int, e: int|
            0 <= n < self.nets@.len() && 0 <= e < self.nets@[n].endpoints@.len() ==> (
            #[trigger] self.nets@[n].endpoints@[e]).placed < self.placed@.len()
    }
}

/// Does the net hold the pad among its first `n` endpoints?
pub open spec fn holds_pad(net: SheetNet, placed: int, pad: Seq<char>) -> bool {
    exists|e: int|
        0 <= e < net.endpoints@.len() && (#[trigger] net.endpoints@[e]).placed == placed
            && net.endpoints@[e].pad@ == pad
}

/// The last of the first `n` nets that holds the pad.
pub open spec fn net_of_pad(nets: Seq<SheetNet>, placed: int, pad: Seq<char>, n: int) -> Option<int>
    decreases n,
{
    if n <= 0 || n > nets.len() {
        None
    } else if holds_pad(nets[n - 1], placed, pad) {
        Some(n - 1)
    } else {
        net_of_pad(nets, placed, pad, n - 1)
    }
}

/// The net of a pad on the sheet.
pub open spec fn pin_net(nets: Seq<SheetNet>, placed: int, pad: Seq<char>) -> Option<int> {
    net_of_pad(nets, placed, pad, nets.len() as int)
}

fn net_holds_pad(net: &SheetNet, placed: usize, pad: &String) -> (r: bool)
    ensures
        r == holds_pad(*net, placed as int, pad@),
{
    let mut e: usize = 0;
    while e < net.endpoints.len()
        invariant
            e <= net.endpoints.len(),
            forall|k: int|
                0 <= k < e ==> !((#[trigger] net.endpoints@[k]).placed == placed
                    && net.endpoints@[k].pad@ == pad@),
        decreases net.endpoints.len() - e,
    {
        if net.endpoints[e].placed == placed && net.endpoints[e].pad == *pad {
            return true;
        }
        e = e + 1;
    }
    false
}

/// The net of a pad on the sheet.
pub fn find_pin_net(nets: &[SheetNet], placed: usize, pad: &String) -> (r: Option<usize>)
    ensures
        match r {
            Some(n) => pin_net(nets@, placed as int, pad@) == Some(n as int) && n < nets@.len(),
            None => pin_net(nets@, placed as int, pad@) is None,
        },
{
    let mut n: usize = nets.len();
    while n > 0
        invariant
            n <= nets.len(),
            pin_net(nets@, placed as int, pad@) == net_of_pad(
                nets@,
                placed as int,
                pad@,
                n as int,
            ),
        decreases n,
    {
        if net_holds_pad(&nets[n - 1], placed, pad) {
            return Some(n - 1);
        }
        n = n - 1;
    }
    None
}

// ---------------------------------------------------------------- text extents

/// Width of a text of `n` characters, with half a character of air on either side.
pub open spec fn text_width(n: int) -> Iu {
    sat(spec_steps(n, 12700) + 12700)
}

/// Width of a label.
pub fn label_text_width(name: &str) -> (r: Iu)
    ensures
        r == text_width(name@.len() as int),
{
    to_iu(steps(width(name), 12700) as i64 + 12700)
}

/// Length of the stub that carries a label: a whole number of grid steps that underlines the text.
pub open spec fn spec_stub_len(cfg: SchConfig, n: int) -> Iu {
    cfg.spec_snap_up(
        spec_max(
            spec_max(
                spec_steps(cfg.label_stub_min_grid_steps as int, cfg.grid_mm as int) as int,
                cfg.stub_mm as int,
            ),
            text_width(n) as int,
        ),
    )
}

pub fn label_stub_len(cfg: &SchConfig, name: &str) -> (r: Iu)
    requires
        cfg.wf(),
    ensures
        r == spec_stub_len(*cfg, name@.len() as int),
{
    let least: Iu = steps(cfg.label_stub_min_grid_steps as usize, cfg.grid_mm);
    let len: Iu = greater(greater(least, cfg.stub_mm), label_text_width(name));
    cfg.snap_up(len as i64)
}

/// A label stub is long enough to underline its text, and a whole number of grid steps, unless
/// the length leaves the range of coordinates.
pub proof fn law_stub_underlines_text(cfg: SchConfig, n: int)
    requires
        cfg.wf(),
        spec_stub_len(cfg, n) < i32::MAX,
        n >= 0,
    ensures
        spec_stub_len(cfg, n) >= text_width(n),
        spec_stub_len(cfg, n) >= cfg.stub_mm,
        spec_stub_len(cfg, n) >= spec_steps(
            cfg.label_stub_min_grid_steps as int,
            cfg.grid_mm as int,
        ),
        spec_stub_len(cfg, n) as int % cfg.grid_mm as int == 0,
{
    let v = spec_max(
        spec_max(
            spec_steps(cfg.label_stub_min_grid_steps as int, cfg.grid_mm as int) as int,
            cfg.stub_mm as int,
        ),
        text_width(n) as int,
    );
    let g = cfg.grid_mm as int;
    let q = crate::units::ceil_steps(v, g);
    crate::units::lemma_ceil_steps(v, g);
    assert((q * g) % g == 0) by {
        vstd::arithmetic::div_mod::lemma_mod_multiples_basic(q, g);
    }
}

// ---------------------------------------------------------------- extents of a component

/// Two-pin parts and the like may be rotated.
pub open spec fn rotatable(role: Role) -> bool {
    role == Role::Passive || role == Role::Decoupling || role == Role::Bulk || role == Role::Pull
        || role == Role::Led || role == Role::Crystal
}

pub fn is_rotatable(role: Role) -> (r: bool)
    ensures
        r == rotatable(role),
{
    match role {
        Role::Passive
        | Role::Decoupling
        | Role::Bulk
        | Role::Pull
        | Role::Led
        | Role::Crystal => true,
        _ => false,
    }
}

/// Body, pins and the room for the two texts of a placed component.
pub open spec fn solid_of(cfg: SchConfig, design: DesignModel, p: PlacedComp) -> BBox {
    let raw = body_of(design, p);
    let c = design.comps@[p.comp as int];
    let ref_w = text_width(c.refdes@.len() as int);
    let val_w = text_width(c.value@.len() as int);
    let above = spec_steps(cfg.ref_gap_grid_steps as int, cfg.grid_mm as int) + 25400;
    let below = spec_steps(cfg.value_gap_grid_steps as int, cfg.grid_mm as int) + 25400;
    let down = has_bottom_pins(design, p);
    let right = spec_max(raw.x2 as int, raw.x1 + ref_w);
    bx(
        if down {
            spec_min(raw.x1 as int, raw.x2 - val_w)
        } else {
            raw.x1 as int
        },
        raw.y1 - above,
        if down {
            right
        } else {
            spec_max(right, raw.x1 + val_w)
        },
        raw.y2 + below,
    )
}

/// Body, pins and the room for the two texts of a placed component.
pub fn solid_box_for(cfg: &SchConfig, design: &DesignModel, p: &PlacedComp) -> (b: BBox)
    requires
        p.comp < design.comps@.len(),
    ensures
        b == solid_of(*cfg, *design, *p),
{
    let raw: BBox = raw_box_of(design, p);
    let ref_w: i64 = label_text_width(design.comps[p.comp].refdes.as_str()) as i64;
    let val_w: i64 = label_text_width(design.comps[p.comp].value.show().as_str()) as i64;
    let above: i64 = steps(cfg.ref_gap_grid_steps as usize, cfg.grid_mm) as i64 + 25400;
    let below: i64 = steps(cfg.value_gap_grid_steps as usize, cfg.grid_mm) as i64 + 25400;
    let down: bool = has_bottom(design, p);
    let x1: i64 = raw.x1 as i64;
    let x2: i64 = raw.x2 as i64;
    let right: i64 = if x2 >= x1 + ref_w {
        x2
    } else {
        x1 + ref_w
    };
    let (lo, hi): (i64, i64) = if down {
        (
            if x1 <= x2 - val_w {
                x1
            } else {
                x2 - val_w
            },
            right,
        )
    } else {
        (
            x1,
            if right >= x1 + val_w {
                right
            } else {
                x1 + val_w
            },
        )
    };
    make_box(lo, raw.y1 as i64 - above, hi, raw.y2 as i64 + below)
}

// ---------------------------------------------------------------- arranging a sheet

/// Those of the first `n` components that are in the group and were not placed by hand.
pub open spec fn free_members(placed: Seq<PlacedComp>, root: int, n: int) -> Seq<usize>
    decreases n,
{
    if n <= 0 || n > placed.len() {
        Seq::empty()
    } else {
        let before = free_members(placed, root, n - 1);
        if placed[n - 1].group_root == root && !placed[n - 1].pinned {
            before.push((n - 1) as usize)
        } else {
            before
        }
    }
}

/// Those of the first `n` components that belong to the group of a root placed by hand and
/// still have to be placed at their anchor.
pub open spec fn held_members(placed: Seq<PlacedComp>, root: int, n: int) -> Seq<usize>
    decreases n,
{
    if n <= 0 || n > placed.len() {
        Seq::empty()
    } else {
        let before = held_members(placed, root, n - 1);
        let p = placed[n - 1];
        if p.group_root == root && n - 1 != root && !p.pinned && p.anchor is Some {
            before.push((n - 1) as usize)
        } else {
            before
        }
    }
}

/// The groups so far: the placement, the remarks, the free groups, and what hangs on components
/// that were placed by hand.
pub struct Flow {
    pub placed: Seq<PlacedComp>,
    pub said: Seq<Warning>,
    pub groups: Seq<GroupView>,
    pub held: Seq<usize>,
}

/// The groups of the first `n` roots laid out.
pub open spec fn flow_upto(b: BoardView, n: int) -> Flow
    decreases n,
{
    if n <= 0 || n > b.placed.len() {
        Flow {
            placed: b.placed,
            said: Seq::empty(),
            groups: Seq::empty(),
            held: Seq::empty(),
        }
    } else {
        let f = flow_upto(b, n - 1);
        let root = n - 1;
        let count = b.placed.len() as int;
        if b.placed[root].relegated {
            f
        } else if b.placed[root].pinned {
            Flow {
                placed: f.placed,
                said: f.said,
                groups: f.groups,
                held: f.held + held_members(b.placed, root, count),
            }
        } else {
            let members = free_members(b.placed, root, count);
            if members.len() == 0 {
                f
            } else {
                let now = with_placed(b, f.placed);
                let placed = composed(now, root, members);
                Flow {
                    placed,
                    said: f.said + composed_said(now, root, members),
                    groups: f.groups.push(
                        GroupView {
                            root: root as usize,
                            members,
                            bbox: group_box(with_placed(b, placed), root, members),
                        },
                    ),
                    held: f.held,
                }
            }
        }
    }
}

/// Every component with its extent.
pub open spec fn all_sized(b: BoardView) -> Seq<PlacedComp> {
    Seq::new(b.placed.len(), |i: int| sized(b.cfg, b.design, b.placed[i]))
}

/// The placement before the components make room for each other: free groups in columns, the
/// rest at what was placed by hand.
#[verifier::opaque]
pub open spec fn laid_out(b: BoardView) -> Seq<PlacedComp> {
    let n = b.placed.len() as int;
    let f = flow_upto(b, n);
    let held = content_upto(with_placed(b, f.placed), true, n);
    let cols = with_placed(b, in_columns(with_placed(b, f.placed), f.groups, held));
    let hung = with_placed(b, satellites_placed(cols, f.held, true));
    posed_all(hung, f.held)
}

/// The remarks made while laying out.
#[verifier::opaque]
pub open spec fn laid_out_said(b: BoardView) -> Seq<Warning> {
    let n = b.placed.len() as int;
    let f = flow_upto(b, n);
    let held = content_upto(with_placed(b, f.placed), true, n);
    let cols = with_placed(b, in_columns(with_placed(b, f.placed), f.groups, held));
    f.said + satellites_lost(cols, f.held, true)
}

/// A port enters from the left and has nothing on the sheet to hang on.
pub open spec fn loose_left_port(nets: Seq<SheetNet>, ports: Seq<SheetPort>) -> bool {
    exists|k: int| 0 <= k < ports.len() && is_loose(nets, #[trigger] ports[k], 0)
}

/// The first net, from `i` on, of the port has no endpoint, and the port is no output.
pub open spec fn is_loose(nets: Seq<SheetNet>, port: SheetPort, i: int) -> bool
    decreases nets.len() - i,
{
    if i < 0 || i >= nets.len() {
        false
    } else if nets[i].net == port.net {
        nets[i].endpoints@.len() == 0 && !nets[i].on_child_blocks && port.direction
            != PortDirection::Output
    } else {
        is_loose(nets, port, i + 1)
    }
}

/// How far the whole sheet is moved, so that its content starts at the margins.
pub open spec fn page_shift(b: BoardView, ports: Seq<SheetPort>) -> Point {
    let c = content(b);
    let reserve = if loose_left_port(b.nets, ports) {
        b.cfg.port_column_mm + 50800
    } else {
        0
    };
    Point {
        x: b.cfg.spec_snap(b.cfg.margin_left_mm + reserve - c.x1),
        y: b.cfg.spec_snap(b.cfg.margin_top_mm - c.y1),
    }
}

pub open spec fn any_pinned(placed: Seq<PlacedComp>) -> bool {
    exists|i: int| 0 <= i < placed.len() && (#[trigger] placed[i]).pinned
}

/// Everything moved by one vector.
pub open spec fn all_shifted(b: BoardView, d: Point) -> Seq<PlacedComp> {
    if d.x == 0 && d.y == 0 {
        b.placed
    } else {
        Seq::new(b.placed.len(), |i: int| shifted(b.cfg, b.design, b.placed[i], d))
    }
}

/// Where the two texts of a component go before any wire is known.
pub open spec fn first_texts(cfg: SchConfig, design: DesignModel, p: PlacedComp) -> PlacedComp {
    let body = body_only(design, p);
    let raw = body_of(design, p);
    let gap = spec_steps(cfg.value_gap_grid_steps as int, cfg.grid_mm as int);
    let ref_gap = spec_steps(cfg.ref_gap_grid_steps as int, cfg.grid_mm as int);
    let down = has_bottom_pins(design, p);
    PlacedComp {
        ref_at: Point { x: body.x1, y: sat(body.y1 - ref_gap) },
        value_at: if down {
            Point { x: body.x2, y: sat(raw.y2 + gap + 12700) }
        } else {
            Point { x: body.x1, y: sat(body.y2 + gap + 12700) }
        },
        value_justify_right: down,
        ..p
    }
}

/// What makes room for each other: everything but the utility band.
pub open spec fn flow_queue(placed: Seq<PlacedComp>) -> Seq<usize> {
    room_queue(placed, in_band(placed, false, placed.len() as int))
}

/// The placement with everything in its final place, before it is moved onto the page.
#[verifier::opaque]
pub open spec fn settled(b: BoardView) -> Seq<PlacedComp> {
    let start = with_placed(b, all_sized(with_placed(b, grouped(b.placed))));
    let laid = with_placed(b, laid_out(start));
    let queue = flow_queue(laid.placed);
    let roomy = with_placed(b, room_upto(laid, queue, queue.len() as int));
    oriented(with_placed(b, band_placed(roomy)))
}

/// The remarks made until then.
#[verifier::opaque]
pub open spec fn settled_said(b: BoardView) -> Seq<Warning> {
    let chains = followed(b.placed).waiting;
    let start = with_placed(b, all_sized(with_placed(b, grouped(b.placed))));
    let laid = with_placed(b, laid_out(start));
    let queue = flow_queue(laid.placed);
    lost_chains(b, chains, chains.len() as int) + laid_out_said(start) + crowded(
        laid,
        queue,
        queue.len() as int,
    )
}

/// The arrangement of the components of a sheet.
#[verifier::opaque]
pub open spec fn arranged(b: BoardView, ports: Seq<SheetPort>) -> Seq<PlacedComp> {
    let now = with_placed(b, settled(b));
    let on_page = all_shifted(now, page_shift(now, ports));
    Seq::new(on_page.len(), |i: int| first_texts(b.cfg, b.design, on_page[i]))
}

/// The remarks made while arranging.
#[verifier::opaque]
pub open spec fn arranged_said(b: BoardView, ports: Seq<SheetPort>) -> Seq<Warning> {
    let now = with_placed(b, settled(b));
    let d = page_shift(now, ports);
    settled_said(b) + if (d.x != 0 || d.y != 0) && any_pinned(now.placed) {
        seq![Warning::ManualTranslated { dx: d.x, dy: d.y }]
    } else {
        Seq::empty()
    }
}

fn list_free(placed: &[PlacedComp], root: usize, Ghost(start): Ghost<Seq<PlacedComp>>) -> (r: Vec<
    usize,
>)
    requires
        same_parts(placed@, start),
    ensures
        r@ == free_members(start, root as int, start.len() as int),
        below(r@, start.len() as int),
{
    let mut out: Vec<usize> = Vec::new();
    let mut n: usize = 0;
    while n < placed.len()
        invariant
            n <= placed.len(),
            same_parts(placed@, start),
            out@ == free_members(start, root as int, n as int),
            below(out@, start.len() as int),
        decreases placed.len() - n,
    {
        proof {
            assert(same_part(placed@[n as int], start[n as int]));
        }
        if placed[n].group_root == root && !placed[n].pinned {
            out.push(n);
        }
        n = n + 1;
    }
    out
}

fn list_held(placed: &[PlacedComp], root: usize, Ghost(start): Ghost<Seq<PlacedComp>>) -> (r: Vec<
    usize,
>)
    requires
        same_parts(placed@, start),
    ensures
        r@ == held_members(start, root as int, start.len() as int),
        below(r@, start.len() as int),
{
    let mut out: Vec<usize> = Vec::new();
    let mut n: usize = 0;
    while n < placed.len()
        invariant
            n <= placed.len(),
            same_parts(placed@, start),
            out@ == held_members(start, root as int, n as int),
            below(out@, start.len() as int),
        decreases placed.len() - n,
    {
        proof {
            assert(same_part(placed@[n as int], start[n as int]));
        }
        if placed[n].group_root == root && n != root && !placed[n].pinned
            && placed[n].anchor.is_some() {
            out.push(n);
        }
        n = n + 1;
    }
    out
}

fn flow_groups(
    cfg: &SchConfig,
    design: &DesignModel,
    placed: &mut Vec<PlacedComp>,
    nets: &[SheetNet],
    warnings: &mut Vec<Warning>,
) -> (r: (Vec<Group>, Vec<usize>))
    requires
        cfg.wf(),
        placed_wf(*design, old(placed)@),
        nets_wf(nets@, old(placed)@.len() as int),
        anchors_wf(old(placed)@),
    ensures
        ({
            let b = BoardView { cfg: *cfg, design: *design, placed: old(placed)@, nets: nets@ };
            let f = flow_upto(b, b.placed.len() as int);
            &&& final(placed)@ == f.placed
            &&& final(warnings)@ == old(warnings)@ + f.said
            &&& group_views(r.0@) == f.groups
            &&& r.1@ == f.held
        }),
        same_parts(final(placed)@, old(placed)@),
        groups_wf(group_views(r.0@), old(placed)@.len() as int),
        below(r.1@, old(placed)@.len() as int),
{
    let ghost b = BoardView { cfg: *cfg, design: *design, placed: placed@, nets: nets@ };
    let ghost w0 = warnings@;
    let mut groups: Vec<Group> = Vec::new();
    let mut held: Vec<usize> = Vec::new();
    let mut root: usize = 0;
    proof {
        lemma_parts_refl(b.placed);
        assert(group_views(groups@) =~= Seq::empty());
        assert(w0 =~= w0 + flow_upto(b, 0).said);
    }
    while root < placed.len()
        invariant
            root <= placed@.len(),
            b.cfg == *cfg,
            b.design == *design,
            b.nets == nets@,
            b.wf(),
            anchors_wf(b.placed),
            same_parts(placed@, b.placed),
            placed@ == flow_upto(b, root as int).placed,
            warnings@ == w0 + flow_upto(b, root as int).said,
            group_views(groups@) == flow_upto(b, root as int).groups,
            held@ == flow_upto(b, root as int).held,
            groups_wf(group_views(groups@), b.placed.len() as int),
            below(held@, b.placed.len() as int),
        decreases placed.len() - root,
    {
        let ghost p0 = placed@;
        let ghost w1 = warnings@;
        let ghost g0 = group_views(groups@);
        let ghost h0 = held@;
        proof {
            assert(same_part(p0[root as int], b.placed[root as int]));
            lemma_same_parts(b, p0);
        }
        if placed[root].relegated {
        } else if placed[root].pinned {
            let mut more: Vec<usize> = list_held(placed, root, Ghost(b.placed));
            held.append(&mut more);
            proof {
                assert(held@ =~= h0 + held_members(b.placed, root as int, b.placed.len() as int));
            }
        } else {
            let members: Vec<usize> = list_free(placed, root, Ghost(b.placed));
            if members.len() > 0 {
                let bbox: BBox = compose_group(
                    cfg,
                    design,
                    placed,
                    nets,
                    root,
                    &members,
                    warnings,
                );
                let g: Group = Group { root, members, bbox };
                let ghost gv = g@;
                groups.push(g);
                proof {
                    lemma_same_parts_trans(placed@, p0, b.placed);
                    assert(group_views(groups@) =~= g0.push(gv));
                    assert forall|i: int| 0 <= i < group_views(groups@).len() implies (
                    #[trigger] group_views(groups@)[i]).root < b.placed.len() && below(
                        group_views(groups@)[i].members,
                        b.placed.len() as int,
                    ) by {
                        if i < g0.len() {
                            assert(group_views(groups@)[i] == g0[i]);
                        } else {
                            assert(group_views(groups@)[i] == gv);
                        }
                    }
                    let now = with_placed(b, p0);
                    assert(now == (BoardView {
                        cfg: *cfg,
                        design: *design,
                        placed: p0,
                        nets: nets@,
                    }));
                    assert(warnings@ =~= w0 + (flow_upto(b, root as int).said + composed_said(
                        now,
                        root as int,
                        gv.members,
                    )));
                    assert(with_placed(now, placed@) == with_placed(b, placed@));
                }
            }
        }
        root = root + 1;
    }
    (groups, held)
}

fn lay_out(
    cfg: &SchConfig,
    design: &DesignModel,
    placed: &mut Vec<PlacedComp>,
    nets: &[SheetNet],
    warnings: &mut Vec<Warning>,
)
    requires
        cfg.wf(),
        placed_wf(*design, old(placed)@),
        nets_wf(nets@, old(placed)@.len() as int),
        anchors_wf(old(placed)@),
    ensures
        ({
            let b = BoardView { cfg: *cfg, design: *design, placed: old(placed)@, nets: nets@ };
            &&& final(placed)@ == laid_out(b)
            &&& final(warnings)@ == old(warnings)@ + laid_out_said(b)
        }),
        same_parts(final(placed)@, old(placed)@),
{
    proof {
        reveal(laid_out);
        reveal(laid_out_said);
    }
    let ghost b = BoardView { cfg: *cfg, design: *design, placed: placed@, nets: nets@ };
    let ghost w0 = warnings@;
    let (groups, held): (Vec<Group>, Vec<usize>) = flow_groups(cfg, design, placed, nets, warnings);
    let ghost p1 = placed@;
    proof {
        lemma_same_parts(b, p1);
    }
    let board: Board = Board { cfg, design, placed: &*placed, nets };
    proof {
        assert(board@ == with_placed(b, p1));
    }
    let pinned: Option<BBox> = pinned_content_box(&board);
    place_columns(cfg, design, placed, nets, &groups, pinned);
    let ghost p2 = placed@;
    proof {
        lemma_same_parts_trans(p2, p1, b.placed);
        lemma_same_parts(b, p2);
    }
    place_satellites(cfg, design, placed, nets, &held, true, warnings);
    let ghost p3 = placed@;
    proof {
        lemma_same_parts_trans(p3, p2, b.placed);
        lemma_same_parts(b, p3);
    }
    pose_all(cfg, design, placed, nets, &held);
    proof {
        lemma_same_parts_trans(placed@, p3, b.placed);
        assert(warnings@ =~= w0 + laid_out_said(b));
    }
}

fn find_loose(nets: &[SheetNet], port: &SheetPort) -> (r: bool)
    ensures
        r == is_loose(nets@, *port, 0),
{
    let mut i: usize = 0;
    while i < nets.len()
        invariant
            i <= nets.len(),
            is_loose(nets@, *port, 0) == is_loose(nets@, *port, i as int),
        decreases nets.len() - i,
    {
        if nets[i].net == port.net {
            return nets[i].endpoints.len() == 0 && !nets[i].on_child_blocks && port.direction
                != PortDirection::Output;
        }
        i = i + 1;
    }
    false
}

fn shift_to_page(b: &Board, ports: &[SheetPort]) -> (r: Point)
    requires
        b.wf(),
    ensures
        r == page_shift(b@, ports@),
{
    let c: BBox = content_box(b);
    let mut loose: bool = false;
    let mut k: usize = 0;
    while k < ports.len()
        invariant
            k <= ports.len(),
            loose == exists|i: int| 0 <= i < k && is_loose(b@.nets, #[trigger] ports@[i], 0),
        decreases ports.len() - k,
    {
        if find_loose(b.nets, &ports[k]) {
            loose = true;
        }
        k = k + 1;
    }
    let reserve: i64 = if loose {
        b.cfg.port_column_mm as i64 + 50800
    } else {
        0
    };
    Point {
        x: b.cfg.snap(b.cfg.margin_left_mm as i64 + reserve - c.x1 as i64),
        y: b.cfg.snap(b.cfg.margin_top_mm as i64 - c.y1 as i64),
    }
}

fn find_pinned(placed: &[PlacedComp]) -> (r: bool)
    ensures
        r == any_pinned(placed@),
{
    let mut i: usize = 0;
    while i < placed.len()
        invariant
            i <= placed.len(),
            forall|k: int| 0 <= k < i ==> !(#[trigger] placed@[k]).pinned,
        decreases placed.len() - i,
    {
        if placed[i].pinned {
            return true;
        }
        i = i + 1;
    }
    false
}

fn canonical_texts(cfg: &SchConfig, design: &DesignModel, p: &PlacedComp) -> (r: PlacedComp)
    requires
        p.comp < design.comps@.len(),
    ensures
        r == first_texts(*cfg, *design, *p),
{
    let body: BBox = body_box_of(design, p);
    let raw: BBox = raw_box_of(design, p);
    let gap: i64 = steps(cfg.value_gap_grid_steps as usize, cfg.grid_mm) as i64;
    let ref_gap: i64 = steps(cfg.ref_gap_grid_steps as usize, cfg.grid_mm) as i64;
    let down: bool = has_bottom(design, p);
    PlacedComp {
        ref_at: Point { x: body.x1, y: to_iu(body.y1 as i64 - ref_gap) },
        value_at: if down {
            Point { x: body.x2, y: to_iu(raw.y2 as i64 + gap + 12700) }
        } else {
            Point { x: body.x1, y: to_iu(body.y2 as i64 + gap + 12700) }
        },
        value_justify_right: down,
        ..*p
    }
}

fn size_all(cfg: &SchConfig, design: &DesignModel, placed: &[PlacedComp], Ghost(b): Ghost<BoardView>) -> (r:
    Vec<PlacedComp>)
    requires
        b.cfg == *cfg,
        b.design == *design,
        b.placed == placed@,
        placed_wf(*design, placed@),
    ensures
        r@ == all_sized(b),
        same_parts(r@, placed@),
{
    let mut out: Vec<PlacedComp> = Vec::new();
    let mut i: usize = 0;
    while i < placed.len()
        invariant
            i <= placed.len(),
            b.cfg == *cfg,
            b.design == *design,
            b.placed == placed@,
            placed_wf(*design, placed@),
            out@ =~= all_sized(b).take(i as int),
        decreases placed.len() - i,
    {
        let p: PlacedComp = placed[i];
        out.push(PlacedComp { bbox: solid_box_for(cfg, design, &p), ..p });
        i = i + 1;
    }
    proof {
        assert(out@ =~= all_sized(b));
        assert forall|i: int| 0 <= i < out@.len() implies #[trigger] same_part(
            out@[i],
            placed@[i],
        ) by {}
    }
    out
}

fn settle(
    cfg: &SchConfig,
    design: &DesignModel,
    placed: &[PlacedComp],
    nets: &[SheetNet],
    warnings: &mut Vec<Warning>,
    Ghost(b): Ghost<BoardView>,
) -> (r: Vec<PlacedComp>)
    requires
        b == (BoardView { cfg: *cfg, design: *design, placed: placed@, nets: nets@ }),
        b.wf(),
        anchors_wf(b.placed),
    ensures
        r@ == settled(b),
        final(warnings)@ == old(warnings)@ + settled_said(b),
        r@.len() == b.placed.len(),
        placed_wf(*design, r@),
        roots_wf(r@),
{
    proof {
        reveal(settled);
        reveal(settled_said);
    }
    let ghost w0 = warnings@;
    let board: Board = Board { cfg, design, placed, nets };
    proof {
        assert(board@ == b);
    }
    let groups: Vec<PlacedComp> = resolve_groups(&board, warnings);
    let ghost gb = with_placed(b, groups@);
    proof {
        assert forall|i: int| 0 <= i < groups@.len() implies (#[trigger] groups@[i]).comp
            < design.comps@.len() by {
            assert(b.placed[i].comp < design.comps@.len());
        }
    }
    let mut now: Vec<PlacedComp> = size_all(cfg, design, &groups, Ghost(gb));
    let ghost start = now@;
    proof {
        lemma_same_parts(gb, start);
        assert(with_placed(b, start) == with_placed(gb, start));
    }
    lay_out(cfg, design, &mut now, nets, warnings);
    let ghost laid = now@;
    proof {
        lemma_same_parts_trans(laid, start, groups@);
        lemma_same_parts(gb, laid);
    }
    let flow: Vec<usize> = list_band(&now, false);
    resolve_collisions(cfg, design, &mut now, nets, &flow, warnings);
    let ghost roomy = now@;
    proof {
        lemma_place_is_part(roomy, laid);
        lemma_same_parts_trans(roomy, laid, groups@);
        lemma_same_parts(gb, roomy);
    }
    place_band(cfg, design, &mut now, nets);
    let ghost banded = now@;
    proof {
        lemma_same_parts_trans(banded, roomy, groups@);
        lemma_same_parts(gb, banded);
        lemma_roots_kept(banded, groups@);
    }
    orient_for_wiring(cfg, design, &mut now, nets);
    proof {
        assert forall|i: int| 0 <= i < now@.len() implies #[trigger] same_part(
            now@[i],
            banded[i],
        ) by {
            assert(crate::orientation::same_but_pose(now@[i], banded[i]));
        }
        lemma_same_parts_trans(now@, banded, groups@);
        lemma_same_parts(gb, now@);
        lemma_roots_kept(now@, groups@);
        assert(warnings@ =~= w0 + settled_said(b));
    }
    now
}

proof fn lemma_roots_kept(a: Seq<PlacedComp>, c: Seq<PlacedComp>)
    requires
        same_parts(a, c),
        roots_wf(c),
    ensures
        roots_wf(a),
{
    assert forall|i: int| 0 <= i < a.len() implies (#[trigger] a[i]).group_root < a.len() by {
        assert(same_part(a[i], c[i]));
        assert(c[i].group_root < c.len());
    }
}

/// Arrange the components of a sheet: groups, columns, room, poses, page and texts.
fn run(
    cfg: &SchConfig,
    design: &DesignModel,
    placed: Vec<PlacedComp>,
    nets: &[SheetNet],
    ports: &[SheetPort],
    warnings: &mut Vec<Warning>,
) -> (r: Vec<PlacedComp>)
    requires
        cfg.wf(),
        placed_wf(*design, placed@),
        nets_wf(nets@, placed@.len() as int),
        anchors_wf(placed@),
    ensures
        ({
            let b = BoardView { cfg: *cfg, design: *design, placed: placed@, nets: nets@ };
            &&& r@ == arranged(b, ports@)
            &&& final(warnings)@ == old(warnings)@ + arranged_said(b, ports@)
        }),
        r@.len() == placed@.len(),
        placed_wf(*design, r@),
        roots_wf(r@),
{
    let ghost b = BoardView { cfg: *cfg, design: *design, placed: placed@, nets: nets@ };
    let ghost w0 = warnings@;
    proof {
        reveal(arranged);
        reveal(arranged_said);
    }
    let now: Vec<PlacedComp> = settle(cfg, design, &placed, nets, warnings, Ghost(b));
    let ghost set = with_placed(b, now@);
    let board: Board = Board { cfg, design, placed: &now, nets };
    proof {
        assert(board@ == set);
    }
    let d: Point = shift_to_page(&board, ports);
    let moves: bool = d.x != 0 || d.y != 0;
    if moves && find_pinned(&now) {
        warnings.push(Warning::ManualTranslated { dx: d.x, dy: d.y });
    }
    let mut out: Vec<PlacedComp> = Vec::new();
    let mut i: usize = 0;
    while i < now.len()
        invariant
            i <= now.len(),
            b.cfg == *cfg,
            b.design == *design,
            set == with_placed(b, now@),
            placed_wf(*design, now@),
            roots_wf(now@),
            moves == (d.x != 0 || d.y != 0),
            out@.len() == i,
            forall|k: int|
                0 <= k < i ==> #[trigger] out@[k] == first_texts(
                    *cfg,
                    *design,
                    all_shifted(set, d)[k],
                ) && out@[k].comp < design.comps@.len() && out@[k].group_root < now@.len(),
        decreases now.len() - i,
    {
        let p: PlacedComp = now[i];
        proof {
            assert(now@[i as int].comp < design.comps@.len());
            assert(now@[i as int].group_root < now@.len());
        }
        let q: PlacedComp = if moves {
            shift_one(cfg, design, &p, d)
        } else {
            p
        };
        proof {
            assert(q == all_shifted(set, d)[i as int]);
        }
        out.push(canonical_texts(cfg, design, &q));
        i = i + 1;
    }
    proof {
        assert(out@ =~= arranged(b, ports@));
        assert(warnings@ =~= w0 + arranged_said(b, ports@));
    }
    out
}

// ---------------------------------------------------------------- setting up a sheet

/// The component before anything is placed: by hand where it has a position, else nowhere.
pub open spec fn unplaced(cfg: SchConfig, design: DesignModel, ci: usize) -> PlacedComp {
    let c = design.comps@[ci as int];
    let (at, rotation, mirror) = match c.manual {
        Some(m) => (
            Point { x: cfg.spec_snap(m.at.x as int), y: cfg.spec_snap(m.at.y as int) },
            m.rotation,
            m.mirror,
        ),
        None => (Point { x: 0, y: 0 }, 0i32, None),
    };
    PlacedComp {
        comp: ci,
        at,
        rotation,
        mirror,
        pinned: c.manual is Some,
        anchor: None,
        group_root: 0,
        side: Side::spec_default_for(c.role),
        role: c.role,
        bbox: empty_box(),
        ref_at: Point { x: 0, y: 0 },
        value_at: Point { x: 0, y: 0 },
        ref_justify_right: false,
        value_justify_right: false,
        relegated: false,
    }
}

pub open spec fn all_unplaced(cfg: SchConfig, design: DesignModel, comps: Seq<usize>) -> Seq<PlacedComp> {
    Seq::new(comps.len(), |i: int| unplaced(cfg, design, comps[i]))
}

/// The position is further off the grid than rounding explains.
pub open spec fn snapped_far(cfg: SchConfig, m: ManualPosition) -> bool {
    2 * spec_gap(cfg.spec_snap(m.at.x as int) as int, m.at.x as int) > cfg.grid_mm || 2 * spec_gap(
        cfg.spec_snap(m.at.y as int) as int,
        m.at.y as int,
    ) > cfg.grid_mm
}

/// The remarks on those of the first `n` components whose position was moved onto the grid.
pub open spec fn snapped_said(cfg: SchConfig, design: DesignModel, comps: Seq<usize>, n: int) -> Seq<
    Warning,
>
    decreases n,
{
    if n <= 0 || n > comps.len() {
        Seq::empty()
    } else {
        let before = snapped_said(cfg, design, comps, n - 1);
        let c = design.comps@[comps[n - 1] as int];
        match c.manual {
            Some(m) => if snapped_far(cfg, m) {
                before.push(
                    Warning::ManualSnapped {
                        refdes: c.refdes,
                        dx: sat(cfg.spec_snap(m.at.x as int) - m.at.x),
                        dy: sat(cfg.spec_snap(m.at.y as int) - m.at.y),
                    },
                )
            } else {
                before
            },
            None => before,
        }
    }
}

/// The place of a component on the sheet, the last one among the first `n`.
pub open spec fn place_of(comps: Seq<usize>, ci: usize, n: int) -> Option<usize>
    decreases n,
{
    if n <= 0 || n > comps.len() {
        None
    } else if comps[n - 1] == ci {
        Some((n - 1) as usize)
    } else {
        place_of(comps, ci, n - 1)
    }
}

/// Those of the first `n` endpoints that are on the sheet.
pub open spec fn pads_on_sheet(net: NetModel, comps: Seq<usize>, n: int) -> Seq<SheetPad>
    decreases n,
{
    if n <= 0 || n > net.endpoints@.len() {
        Seq::empty()
    } else {
        let before = pads_on_sheet(net, comps, n - 1);
        let e = net.endpoints@[n - 1];
        match place_of(comps, e.comp, comps.len() as int) {
            Some(pi) => before.push(SheetPad { placed: pi, pad: e.pad }),
            None => before,
        }
    }
}

/// The direction of the last of the first `n` ports that is the net.
pub open spec fn port_of(ports: Seq<SheetPort>, net: int, n: int) -> Option<PortDirection>
    decreases n,
{
    if n <= 0 || n > ports.len() {
        None
    } else if ports[n - 1].net == net {
        Some(ports[n - 1].direction)
    } else {
        port_of(ports, net, n - 1)
    }
}

/// The net is a port of the sheet.
pub open spec fn is_port(sheet: SheetDef, net: int) -> bool {
    exists|p: int| 0 <= p < sheet.ports@.len() && (#[trigger] sheet.ports@[p]).net == net
}

/// The net is a port of a child of the sheet.
pub open spec fn on_child(plan: SheetPlan, sheet: SheetDef, net: int) -> bool {
    exists|c: int|
        0 <= c < sheet.children@.len() && is_port(
            plan.sheets@[#[trigger] sheet.children@[c] as int],
            net,
        )
}

/// The net as it appears on the sheet.
pub open spec fn is_sheet_net(
    sn: SheetNet,
    design: DesignModel,
    plan: SheetPlan,
    sheet: SheetDef,
    ni: int,
) -> bool {
    let net = design.nets@[ni];
    &&& sn.net == ni
    &&& sn.name == net.name
    &&& sn.class == net.class
    &&& sn.endpoints@ == pads_on_sheet(net, sheet.comps@, net.endpoints@.len() as int)
    &&& sn.port == port_of(sheet.ports@, ni, sheet.ports@.len() as int)
    &&& sn.on_child_blocks == on_child(plan, sheet, ni)
    &&& sn.design_endpoints == net.endpoints@.len()
}

/// The net has an endpoint on the sheet, is a port of it, or a port of one of its children.
pub open spec fn concerns(design: DesignModel, plan: SheetPlan, sheet: SheetDef, ni: int) -> bool {
    let net = design.nets@[ni];
    pads_on_sheet(net, sheet.comps@, net.endpoints@.len() as int).len() > 0 || port_of(
        sheet.ports@,
        ni,
        sheet.ports@.len() as int,
    ) is Some || on_child(plan, sheet, ni)
}

/// Those of the first `n` nets that concern the sheet.
pub open spec fn nets_on_sheet(design: DesignModel, plan: SheetPlan, sheet: SheetDef, n: int) -> Seq<int>
    decreases n,
{
    if n <= 0 || n > design.nets@.len() {
        Seq::empty()
    } else if concerns(design, plan, sheet, n - 1) {
        nets_on_sheet(design, plan, sheet, n - 1).push(n - 1)
    } else {
        nets_on_sheet(design, plan, sheet, n - 1)
    }
}

pub open spec fn are_sheet_nets(
    nets: Seq<SheetNet>,
    design: DesignModel,
    plan: SheetPlan,
    sheet: SheetDef,
    n: int,
) -> bool {
    let kept = nets_on_sheet(design, plan, sheet, n);
    nets.len() == kept.len() && forall|i: int|
        0 <= i < nets.len() ==> is_sheet_net(#[trigger] nets[i], design, plan, sheet, kept[i])
}

fn start_comp(cfg: &SchConfig, design: &DesignModel, ci: usize, warnings: &mut Vec<Warning>) -> (r:
    PlacedComp)
    requires
        cfg.wf(),
        ci < design.comps@.len(),
    ensures
        r == unplaced(*cfg, *design, ci),
        final(warnings)@ == old(warnings)@ + (match design.comps@[ci as int].manual {
            Some(m) => if snapped_far(*cfg, m) {
                seq![
                    Warning::ManualSnapped {
                        refdes: design.comps@[ci as int].refdes,
                        dx: sat(cfg.spec_snap(m.at.x as int) - m.at.x),
                        dy: sat(cfg.spec_snap(m.at.y as int) - m.at.y),
                    },
                ]
            } else {
                Seq::empty()
            },
            None => Seq::empty(),
        }),
{
    let c: &Comp = &design.comps[ci];
    let ghost w0 = warnings@;
    proof {
        assert(w0 =~= w0 + Seq::empty());
    }
    let (at, rotation, mirror): (Point, i32, Option<MirrorAxis>) = match c.manual {
        Some(m) => {
            let x: Iu = cfg.snap(m.at.x as i64);
            let y: Iu = cfg.snap(m.at.y as i64);
            if 2 * gap(x, m.at.x) > cfg.grid_mm as i64 || 2 * gap(y, m.at.y) > cfg.grid_mm as i64 {
                warnings.push(
                    Warning::ManualSnapped {
                        refdes: c.refdes.clone(),
                        dx: to_iu(x as i64 - m.at.x as i64),
                        dy: to_iu(y as i64 - m.at.y as i64),
                    },
                );
                proof {
                    assert(warnings@ =~= w0 + seq![warnings@.last()]);
                }
            }
            (Point { x, y }, m.rotation, m.mirror)
        },
        None => (Point { x: 0, y: 0 }, 0, None),
    };
    PlacedComp {
        comp: ci,
        at,
        rotation,
        mirror,
        pinned: c.manual.is_some(),
        anchor: None,
        group_root: 0,
        side: Side::default_for(c.role),
        role: c.role,
        bbox: BBox::empty(),
        ref_at: Point { x: 0, y: 0 },
        value_at: Point { x: 0, y: 0 },
        ref_justify_right: false,
        value_justify_right: false,
        relegated: false,
    }
}

fn find_place(comps: &[usize], ci: usize) -> (r: Option<usize>)
    ensures
        r == place_of(comps@, ci, comps@.len() as int),
        r matches Some(k) ==> k < comps@.len(),
{
    let mut n: usize = comps.len();
    while n > 0
        invariant
            n <= comps.len(),
            place_of(comps@, ci, comps@.len() as int) == place_of(comps@, ci, n as int),
        decreases n,
    {
        if comps[n - 1] == ci {
            return Some(n - 1);
        }
        n = n - 1;
    }
    None
}

fn find_port(ports: &[SheetPort], net: usize) -> (r: Option<PortDirection>)
    ensures
        r == port_of(ports@, net as int, ports@.len() as int),
{
    let mut n: usize = ports.len();
    while n > 0
        invariant
            n <= ports.len(),
            port_of(ports@, net as int, ports@.len() as int) == port_of(
                ports@,
                net as int,
                n as int,
            ),
        decreases n,
    {
        if ports[n - 1].net == net {
            return Some(ports[n - 1].direction);
        }
        n = n - 1;
    }
    None
}

fn has_port(sheet: &SheetDef, net: usize) -> (r: bool)
    ensures
        r == is_port(*sheet, net as int),
{
    let mut p: usize = 0;
    while p < sheet.ports.len()
        invariant
            p <= sheet.ports.len(),
            forall|k: int| 0 <= k < p ==> (#[trigger] sheet.ports@[k]).net != net,
        decreases sheet.ports.len() - p,
    {
        if sheet.ports[p].net == net {
            return true;
        }
        p = p + 1;
    }
    false
}

fn is_on_child(plan: &SheetPlan, sheet: &SheetDef, net: usize) -> (r: bool)
    requires
        below(sheet.children@, plan.sheets@.len() as int),
    ensures
        r == on_child(*plan, *sheet, net as int),
{
    let mut c: usize = 0;
    while c < sheet.children.len()
        invariant
            c <= sheet.children.len(),
            below(sheet.children@, plan.sheets@.len() as int),
            forall|k: int|
                0 <= k < c ==> !is_port(
                    plan.sheets@[#[trigger] sheet.children@[k] as int],
                    net as int,
                ),
        decreases sheet.children.len() - c,
    {
        if has_port(&plan.sheets[sheet.children[c]], net) {
            return true;
        }
        c = c + 1;
    }
    false
}

fn list_pads(net: &NetModel, comps: &[usize]) -> (r: Vec<SheetPad>)
    ensures
        r@ == pads_on_sheet(*net, comps@, net.endpoints@.len() as int),
        forall|i: int| 0 <= i < r@.len() ==> (#[trigger] r@[i]).placed < comps@.len(),
{
    let mut out: Vec<SheetPad> = Vec::new();
    let mut n: usize = 0;
    while n < net.endpoints.len()
        invariant
            n <= net.endpoints.len(),
            out@ == pads_on_sheet(*net, comps@, n as int),
            forall|i: int| 0 <= i < out@.len() ==> (#[trigger] out@[i]).placed < comps@.len(),
        decreases net.endpoints.len() - n,
    {
        match find_place(comps, net.endpoints[n].comp) {
            Some(pi) => {
                out.push(SheetPad { placed: pi, pad: net.endpoints[n].pad.clone() });
            },
            None => {},
        }
        n = n + 1;
    }
    out
}

fn list_nets(design: &DesignModel, plan: &SheetPlan, sheet: &SheetDef) -> (r: Vec<SheetNet>)
    requires
        below(sheet.children@, plan.sheets@.len() as int),
    ensures
        are_sheet_nets(r@, *design, *plan, *sheet, design.nets@.len() as int),
        nets_wf(r@, sheet.comps@.len() as int),
{
    let mut out: Vec<SheetNet> = Vec::new();
    let mut n: usize = 0;
    while n < design.nets.len()
        invariant
            n <= design.nets.len(),
            below(sheet.children@, plan.sheets@.len() as int),
            are_sheet_nets(out@, *design, *plan, *sheet, n as int),
            nets_wf(out@, sheet.comps@.len() as int),
        decreases design.nets.len() - n,
    {
        let net: &NetModel = &design.nets[n];
        let endpoints: Vec<SheetPad> = list_pads(net, &sheet.comps);
        let port: Option<PortDirection> = find_port(&sheet.ports, n);
        let on_child_blocks: bool = is_on_child(plan, sheet, n);
        if endpoints.len() > 0 || port.is_some() || on_child_blocks {
            let ghost before = out@;
            let ghost eps = endpoints@;
            out.push(
                SheetNet {
                    net: n,
                    name: net.name.clone(),
                    class: net.class,
                    endpoints: boxed(endpoints),
                    port,
                    on_child_blocks,
                    design_endpoints: net.endpoints.len(),
                },
            );
            proof {
                assert forall|i: int, e: int|
                    0 <= i < out@.len() && 0 <= e < out@[i].endpoints@.len() implies (
                #[trigger] out@[i].endpoints@[e]).placed < sheet.comps@.len() by {
                    if i < before.len() {
                        assert(out@[i] == before[i]);
                        assert(before[i].endpoints@[e].placed < sheet.comps@.len());
                    } else {
                        assert(out@[i].endpoints@[e] == eps[e]);
                    }
                }
                let kept = nets_on_sheet(*design, *plan, *sheet, n + 1);
                assert forall|i: int| 0 <= i < out@.len() implies is_sheet_net(
                    #[trigger] out@[i],
                    *design,
                    *plan,
                    *sheet,
                    kept[i],
                ) by {
                    if i < before.len() {
                        assert(out@[i] == before[i]);
                    }
                }
            }
        }
        n = n + 1;
    }
    out
}

/// The placement that anchors have been found for.
pub open spec fn anchored_start(b: BoardView) -> BoardView {
    with_placed(b, all_anchored(b))
}

fn start_comps(cfg: &SchConfig, design: &DesignModel, sheet: &SheetDef, warnings: &mut Vec<Warning>) -> (r:
    Vec<PlacedComp>)
    requires
        cfg.wf(),
        below(sheet.comps@, design.comps@.len() as int),
    ensures
        r@ == all_unplaced(*cfg, *design, sheet.comps@),
        placed_wf(*design, r@),
        anchors_wf(r@),
        final(warnings)@ == old(warnings)@ + snapped_said(
            *cfg,
            *design,
            sheet.comps@,
            sheet.comps@.len() as int,
        ),
{
    let ghost w0 = warnings@;
    let mut placed: Vec<PlacedComp> = Vec::new();
    let mut i: usize = 0;
    proof {
        assert(w0 =~= w0 + snapped_said(*cfg, *design, sheet.comps@, 0));
    }
    while i < sheet.comps.len()
        invariant
            i <= sheet.comps.len(),
            cfg.wf(),
            below(sheet.comps@, design.comps@.len() as int),
            placed@ =~= all_unplaced(*cfg, *design, sheet.comps@).take(i as int),
            warnings@ == w0 + snapped_said(*cfg, *design, sheet.comps@, i as int),
        decreases sheet.comps.len() - i,
    {
        placed.push(start_comp(cfg, design, sheet.comps[i], warnings));
        i = i + 1;
        proof {
            assert(warnings@ =~= w0 + snapped_said(*cfg, *design, sheet.comps@, i as int));
        }
    }
    proof {
        assert(placed@ =~= all_unplaced(*cfg, *design, sheet.comps@));
        assert forall|i: int| 0 <= i < placed@.len() implies (#[trigger] placed@[i]).comp
            < design.comps@.len() by {
            assert(sheet.comps@[i] < design.comps@.len());
        }
    }
    placed
}

/// The components of a sheet before anything is placed, on its nets.
pub open spec fn unplaced_board(r: SheetModel, design: DesignModel, sheet: SheetDef, cfg: SchConfig) -> BoardView {
    BoardView {
        cfg,
        design,
        placed: all_unplaced(cfg, design, sheet.comps@),
        nets: r.nets@,
    }
}

/// The sheet is placed as its plan says.
pub open spec fn is_placed(r: SheetModel, design: DesignModel, plan: SheetPlan, si: int, cfg: SchConfig) -> bool {
    let sheet = plan.sheets@[si];
    let b = unplaced_board(r, design, sheet, cfg);
    &&& r.sheet == si
    &&& r.relegate == has_band(b)
    &&& are_sheet_nets(r.nets@, design, plan, sheet, design.nets@.len() as int)
    &&& r.placed@ == arranged(anchored_start(b), sheet.ports@)
    &&& r.content_box == content(with_placed(b, r.placed@))
}

/// The remarks made while placing.
pub open spec fn placing_said(r: SheetModel, design: DesignModel, plan: SheetPlan, si: int, cfg: SchConfig) -> Seq<
    Warning,
> {
    let sheet = plan.sheets@[si];
    let b = unplaced_board(r, design, sheet, cfg);
    snapped_said(cfg, design, sheet.comps@, sheet.comps@.len() as int) + lost_anchors(
        b,
        b.placed.len() as int,
    ) + arranged_said(anchored_start(b), sheet.ports@)
}

/// Place the components of a sheet.
pub fn place_sheet(
    design: &DesignModel,
    plan: &SheetPlan,
    sheet_idx: usize,
    cfg: &SchConfig,
    warnings: &mut Vec<Warning>,
) -> (r: SheetModel)
    requires
        cfg.wf(),
        sheet_idx < plan.sheets@.len(),
        below(plan.sheets@[sheet_idx as int].comps@, design.comps@.len() as int),
        below(plan.sheets@[sheet_idx as int].children@, plan.sheets@.len() as int),
    ensures
        is_placed(r, *design, *plan, sheet_idx as int, *cfg),
        r.wf(*design),
        final(warnings)@ == old(warnings)@ + placing_said(
            r,
            *design,
            *plan,
            sheet_idx as int,
            *cfg,
        ),
{
    let sheet: &SheetDef = &plan.sheets[sheet_idx];
    let ghost w0 = warnings@;
    let placed: Vec<PlacedComp> = start_comps(cfg, design, sheet, warnings);
    let nets: Vec<SheetNet> = list_nets(design, plan, sheet);
    let ghost b = BoardView { cfg: *cfg, design: *design, placed: placed@, nets: nets@ };
    let board: Board = Board { cfg, design, placed: &placed, nets: &nets };
    proof {
        assert(board@ == b);
    }
    let relegate: bool = find_band(&board);
    let anchored: Vec<PlacedComp> = resolve_anchors(&board, warnings);
    let ghost start = anchored@;
    proof {
        assert forall|i: int| 0 <= i < anchored@.len() implies (#[trigger] anchored@[i]).comp
            < design.comps@.len() by {
            assert(placed@[i].comp < design.comps@.len());
        }
        assert(anchored_start(b) == (BoardView {
            cfg: *cfg,
            design: *design,
            placed: start,
            nets: nets@,
        }));
    }
    let out: Vec<PlacedComp> = run(cfg, design, anchored, &nets, &sheet.ports, warnings);
    let board: Board = Board { cfg, design, placed: &out, nets: &nets };
    proof {
        assert(board@ == with_placed(b, out@));
    }
    let content_box: BBox = content_box(&board);
    proof {
        let kept = nets_on_sheet(*design, *plan, *sheet, design.nets@.len() as int);
        lemma_nets_on_sheet(*design, *plan, *sheet, design.nets@.len() as int);
        assert forall|n: int| 0 <= n < nets@.len() implies (#[trigger] nets@[n]).net
            < design.nets@.len() by {
            assert(is_sheet_net(nets@[n], *design, *plan, *sheet, kept[n]));
            assert(kept[n] < design.nets@.len());
        }
    }
    let r: SheetModel = SheetModel {
        sheet: sheet_idx,
        placed: boxed(out),
        nets: boxed(nets),
        content_box,
        relegate,
    };
    proof {
        assert(unplaced_board(r, *design, *sheet, *cfg) == b);
        assert(warnings@ =~= w0 + placing_said(r, *design, *plan, sheet_idx as int, *cfg));
    }
    r
}

proof fn lemma_nets_on_sheet(design: DesignModel, plan: SheetPlan, sheet: SheetDef, n: int)
    requires
        0 <= n <= design.nets@.len(),
    ensures
        forall|i: int|
            0 <= i < nets_on_sheet(design, plan, sheet, n).len() ==> 0 <= #[trigger] nets_on_sheet(
                design,
                plan,
                sheet,
                n,
            )[i] < n,
    decreases n,
{
    if n > 0 {
        lemma_nets_on_sheet(design, plan, sheet, n - 1);
        let before = nets_on_sheet(design, plan, sheet, n - 1);
        let now = nets_on_sheet(design, plan, sheet, n);
        assert forall|i: int| 0 <= i < now.len() implies 0 <= #[trigger] now[i] < n by {
            if i < before.len() {
                assert(now[i] == before[i]);
            }
        }
    }
}

} // verus!
