//! Where the reference and the value of each component are written.

use vstd::prelude::*;
use crate::config::SchConfig;
use crate::geometry::{
    body_box, bx, hull, make_box, point_box, spec_body_box, spec_point_box, union_box, BBox,
    SymbolGeom,
};
use crate::glyphs::{
    attachment, half_text, half_text_of, potential_rank, power_attachment, power_points_down,
    Attachment,
};
use crate::model::{DesignModel, NetClass};
use crate::pins::{
    geom_of, is_pair_net, is_pair_net_static, is_seen, pad_at, pad_dir, pad_outward, pad_position,
    seen,
};
use crate::place::{
    find_pin_net, label_stub_len, label_text_width, pin_net, placed_wf, spec_stub_len, text_width,
    PlacedComp, SheetNet,
};
use crate::registry::{Corridor, CorridorZone, NetBox};
use crate::units::{
    greater, half, lesser, near_coord, sat, shift, spec_half, spec_max, spec_min, spec_near,
    spec_shift, spec_steps, steps, to_iu, Iu, Point, EPS,
};

verus! {

/// The placed components of a sheet and the nets on them.
#[derive(Clone, Copy)]
pub struct Board<'a> {
    pub cfg: &'a SchConfig,
    pub design: &'a DesignModel,
    pub placed: &'a [PlacedComp],
    pub nets: &'a [SheetNet],
}

/// The contents of a [`Board`].
pub struct BoardView {
    pub cfg: SchConfig,
    pub design: DesignModel,
    pub placed: Seq<PlacedComp>,
    pub nets: Seq<SheetNet>,
}

impl<'a> View for Board<'a> {
    type V = BoardView;

    open spec fn view(&self) -> BoardView {
        BoardView {
            cfg: *self.cfg,
            design: *self.design,
            placed: self.placed@,
            nets: self.nets@,
        }
    }
}

/// The endpoints of the nets belong to placed components.
pub open spec fn nets_wf(nets: Seq<SheetNet>, placed: int) -> bool {
    forall|n: int, e: int|
        0 <= n < nets.len() && 0 <= e < nets[n].endpoints@.len() ==> (
        #[trigger] nets[n].endpoints@[e]).placed < placed
}

impl BoardView {
    pub open spec fn wf(self) -> bool {
        &&& self.cfg.wf()
        &&& placed_wf(self.design, self.placed)
        &&& nets_wf(self.nets, self.placed.len() as int)
    }
}

impl<'a> Board<'a> {
    pub open spec fn wf(self) -> bool {
        self@.wf()
    }
}

/// The net of a pin, where it is drawn and connected, with its position and direction.
pub struct PinOnNet {
    pub sn: int,
    pub pos: Point,
    pub dir: Point,
}

pub open spec fn pin_on_net(b: BoardView, pi: int, n: int) -> Option<PinOnNet> {
    let p = b.placed[pi];
    let pin = geom_of(b.design, p).pins@[n];
    match (
        pin_net(b.nets, pi, pin.number@),
        pad_position(b.design, p, pin.number@),
        pad_outward(b.design, p, pin.number@),
    ) {
        (Some(sn), Some(pos), Some(dir)) => if pin.hidden {
            None
        } else {
            Some(PinOnNet { sn, pos, dir })
        },
        _ => None,
    }
}

pub fn find_pin_on_net(b: &Board, pi: usize, n: usize) -> (r: Option<(usize, Point, Point)>)
    requires
        b.wf(),
        pi < b.placed@.len(),
        n < geom_of(*b.design, b.placed@[pi as int]).pins@.len(),
    ensures
        match r {
            Some((sn, pos, dir)) => pin_on_net(b@, pi as int, n as int) == Some(
                PinOnNet { sn: sn as int, pos, dir },
            ) && sn < b.nets@.len(),
            None => pin_on_net(b@, pi as int, n as int) is None,
        },
{
    let p: &PlacedComp = &b.placed[pi];
    let geom: &SymbolGeom = &b.design.comps[p.comp].geom;
    if geom.pins[n].hidden {
        return None;
    }
    let number: &String = &geom.pins[n].number.show();
    match (find_pin_net(b.nets, pi, number), pad_at(b.design, p, number), pad_dir(
        b.design,
        p,
        number,
    )) {
        (Some(sn), Some(pos), Some(dir)) => Some((sn, pos, dir)),
        _ => None,
    }
}

// ---------------------------------------------------------------- where power connections will go

/// The narrow box of a power symbol's shaft and the wide box of its name.
pub open spec fn power_zones(n: int, at: Point, down: bool) -> (BBox, BBox) {
    let h = half_text(n);
    if down {
        (
            bx(at.x - 16000, at.y as int, at.x + 16000, at.y + 38100),
            bx(at.x - h, at.y + 38100, at.x + h, at.y + 63500),
        )
    } else {
        (
            bx(at.x - 16000, at.y - 38100, at.x + 16000, at.y as int),
            bx(at.x - h, at.y - 76200, at.x + h, at.y - 38100),
        )
    }
}

pub fn power_graphic_zone_boxes(name: &str, at: Point, down: bool) -> (r: (BBox, BBox))
    ensures
        r == power_zones(name@.len() as int, at, down),
{
    let h: i64 = half_text_of(name);
    let x: i64 = at.x as i64;
    let y: i64 = at.y as i64;
    if down {
        (make_box(x - 16000, y, x + 16000, y + 38100), make_box(x - h, y + 38100, x + h, y + 63500))
    } else {
        (make_box(x - 16000, y - 38100, x + 16000, y), make_box(x - h, y - 76200, x + h, y - 38100))
    }
}

/// The box of leg `i` of a power connection; the first leg starts at its pin.
pub open spec fn leg_box(path: Seq<Point>, dir: Point, i: int) -> BBox {
    let b = hull(spec_point_box(path[i], 12700), spec_point_box(path[i + 1], 12700));
    if i > 0 {
        b
    } else if dir.x > 0 {
        BBox { x1: path[0].x, ..b }
    } else if dir.x < 0 {
        BBox { x2: path[0].x, ..b }
    } else if dir.y > 0 {
        BBox { y1: path[0].y, ..b }
    } else {
        BBox { y2: path[0].y, ..b }
    }
}

/// The boxes of the first `n` legs.
pub open spec fn leg_corridors(
    path: Seq<Point>,
    dir: Point,
    net: String,
    owner: usize,
    n: int,
) -> Seq<Corridor>
    decreases n,
{
    if n <= 0 || n >= path.len() {
        Seq::empty()
    } else {
        leg_corridors(path, dir, net, owner, n - 1).push(
            Corridor {
                bbox: leg_box(path, dir, n - 1),
                net,
                owner,
                zone: CorridorZone::Corridor,
            },
        )
    }
}

/// The predicted extent of the power connection of one pin.
pub open spec fn pin_corridors(b: BoardView, owner: usize, p: PinOnNet) -> Seq<Corridor> {
    let net = b.nets[p.sn];
    let down = potential_rank(net.name@, net.class) <= 0;
    let long = attachment(b.cfg, p.pos, p.dir, down, 0, 101600);
    let short = attachment(b.cfg, p.pos, p.dir, down, 0, 0);
    let away = if short.down {
        short.symbol_at.y >= p.pos.y - EPS
    } else {
        short.symbol_at.y <= p.pos.y + EPS
    };
    let z = power_zones(net.name@.len() as int, short.symbol_at, short.down);
    leg_corridors(long.path, p.dir, net.name, owner, long.path.len() - 1) + (if away || p.dir.y == 0 {
        seq![
            Corridor { bbox: z.0, net: net.name, owner, zone: CorridorZone::Graphic },
            Corridor { bbox: z.1, net: net.name, owner, zone: CorridorZone::Graphic },
        ]
    } else {
        Seq::empty()
    })
}

/// The power connections of the first `n` pins of a component, one for each position; the
/// positions met so far.
pub open spec fn comp_corridors(b: BoardView, pi: usize, n: int) -> (Seq<Corridor>, Seq<Point>)
    decreases n,
{
    if n <= 0 || n > geom_of(b.design, b.placed[pi as int]).pins@.len() {
        (Seq::empty(), Seq::empty())
    } else {
        let before = comp_corridors(b, pi, n - 1);
        match pin_on_net(b, pi as int, n - 1) {
            Some(p) => if b.nets[p.sn].class == NetClass::Signal || seen(before.1, p.pos) {
                before
            } else {
                (before.0 + pin_corridors(b, pi, p), before.1.push(p.pos))
            },
            None => before,
        }
    }
}

/// The power connections of the first `n` components.
pub open spec fn board_corridors(b: BoardView, n: int) -> Seq<Corridor>
    decreases n,
{
    if n <= 0 || n > b.placed.len() {
        Seq::empty()
    } else {
        board_corridors(b, n - 1) + comp_corridors(
            b,
            (n - 1) as usize,
            geom_of(b.design, b.placed[n - 1]).pins@.len() as int,
        ).0
    }
}

fn push_pin_corridors(b: &Board, owner: usize, sn: usize, pos: Point, dir: Point, out: &mut Vec<
    Corridor,
>)
    requires
        b.wf(),
        sn < b.nets@.len(),
    ensures
        final(out)@ == old(out)@ + pin_corridors(
            b@,
            owner,
            PinOnNet { sn: sn as int, pos, dir },
        ),
{
    let net: &SheetNet = &b.nets[sn];
    let down: bool = power_points_down(net.name.as_str(), net.class);
    let long: Attachment = power_attachment(b.cfg, pos, dir, down, 0, 101600);
    let path: &Vec<Point> = &long.path;
    let ghost o0 = out@;
    let mut i: usize = 0;
    proof {
        assert(o0 =~= o0 + leg_corridors(path@, dir, net.name, owner, 0));
    }
    while i < path.len() - 1
        invariant
            path@.len() >= 2,
            path@[0] == pos,
            i <= path.len() - 1,
            out@ == o0 + leg_corridors(path@, dir, net.name, owner, i as int),
        decreases path.len() - i,
    {
        let mut s: BBox = union_box(&point_box(path[i], 12700), &point_box(path[i + 1], 12700));
        if i == 0 {
            if dir.x > 0 {
                s = BBox { x1: pos.x, y1: s.y1, x2: s.x2, y2: s.y2 };
            } else if dir.x < 0 {
                s = BBox { x1: s.x1, y1: s.y1, x2: pos.x, y2: s.y2 };
            } else if dir.y > 0 {
                s = BBox { x1: s.x1, y1: pos.y, x2: s.x2, y2: s.y2 };
            } else {
                s = BBox { x1: s.x1, y1: s.y1, x2: s.x2, y2: pos.y };
            }
        }
        out.push(
            Corridor { bbox: s, net: net.name.clone(), owner, zone: CorridorZone::Corridor },
        );
        i = i + 1;
        proof {
            assert(out@ =~= o0 + leg_corridors(path@, dir, net.name, owner, i as int));
        }
    }
    let short: Attachment = power_attachment(b.cfg, pos, dir, down, 0, 0);
    let away: bool = if short.down {
        short.symbol_at.y as i64 >= pos.y as i64 - EPS
    } else {
        short.symbol_at.y as i64 <= pos.y as i64 + EPS
    };
    if away || dir.y == 0 {
        let z: (BBox, BBox) = power_graphic_zone_boxes(
            net.name.as_str(),
            short.symbol_at,
            short.down,
        );
        out.push(
            Corridor { bbox: z.0, net: net.name.clone(), owner, zone: CorridorZone::Graphic },
        );
        out.push(
            Corridor { bbox: z.1, net: net.name.clone(), owner, zone: CorridorZone::Graphic },
        );
    }
    proof {
        assert(out@ =~= o0 + pin_corridors(b@, owner, PinOnNet { sn: sn as int, pos, dir }));
    }
}

/// The predicted extents of all power connections of a sheet.
pub fn power_stub_corridors(b: &Board) -> (r: Vec<Corridor>)
    requires
        b.wf(),
    ensures
        r@ == board_corridors(b@, b.placed@.len() as int),
{
    let mut out: Vec<Corridor> = Vec::new();
    let mut pi: usize = 0;
    while pi < b.placed.len()
        invariant
            pi <= b.placed.len(),
            b.wf(),
            out@ == board_corridors(b@, pi as int),
        decreases b.placed.len() - pi,
    {
        let ghost before = out@;
        let count: usize = b.design.comps[b.placed[pi].comp].geom.pins.len();
        let mut met: Vec<Point> = Vec::new();
        let mut n: usize = 0;
        proof {
            assert(before =~= before + comp_corridors(b@, pi, 0).0);
        }
        while n < count
            invariant
                n <= count,
                pi < b.placed.len(),
                b.wf(),
                count == geom_of(*b.design, b.placed@[pi as int]).pins@.len(),
                out@ == before + comp_corridors(b@, pi, n as int).0,
                met@ == comp_corridors(b@, pi, n as int).1,
            decreases count - n,
        {
            match find_pin_on_net(b, pi, n) {
                Some((sn, pos, dir)) => {
                    if b.nets[sn].class != NetClass::Signal && !is_seen(&met, pos) {
                        push_pin_corridors(b, pi, sn, pos, dir, &mut out);
                        met.push(pos);
                    }
                },
                None => {},
            }
            n = n + 1;
            proof {
                assert(out@ =~= before + comp_corridors(b@, pi, n as int).0);
            }
        }
        pi = pi + 1;
    }
    out
}

// ---------------------------------------------------------------- where signal stubs will go

/// Index of the first endpoint, at or after `i`, that is not the given pad.
pub open spec fn other_end(net: SheetNet, pi: int, pad: Seq<char>, i: int) -> Option<int>
    decreases net.endpoints@.len() - i,
{
    if i < 0 || i >= net.endpoints@.len() {
        None
    } else if net.endpoints@[i].placed != pi || net.endpoints@[i].pad@ != pad {
        Some(i)
    } else {
        other_end(net, pi, pad, i + 1)
    }
}

/// Position of the mate of a pad.
pub open spec fn mate_position(b: BoardView, net: SheetNet, pi: int, pad: Seq<char>) -> Option<Point> {
    match other_end(net, pi, pad, 0) {
        Some(i) => pad_position(
            b.design,
            b.placed[net.endpoints@[i].placed as int],
            net.endpoints@[i].pad@,
        ),
        None => None,
    }
}

/// The strip that the direct wire of a facing pair will take, as far as it is known.
pub open spec fn pair_strip(pos: Point, dir: Point, mate: Point) -> BBox {
    let level = dir.y == 0;
    let p = if level {
        pos.x as int
    } else {
        pos.y as int
    };
    let q = if level {
        mate.x as int
    } else {
        mate.y as int
    };
    let aligned = if level {
        spec_near(pos.y as int, mate.y as int)
    } else {
        spec_near(pos.x as int, mate.x as int)
    };
    let ahead = if level {
        dir.x > 0
    } else {
        dir.y > 0
    };
    let mid = spec_half(p + q) as int;
    let far = if aligned {
        q
    } else if ahead {
        spec_max(p + 25400, mid - 76200)
    } else {
        spec_min(p - 25400, mid + 76200)
    };
    if level {
        bx(spec_min(p, far), pos.y - 4000, spec_max(p, far), pos.y + 4000)
    } else {
        bx(pos.x - 4000, spec_min(p, far), pos.x + 4000, spec_max(p, far))
    }
}

/// The zone of the elbow stub of a vertical pin.
pub open spec fn elbow_zone(cfg: SchConfig, pos: Point, dir: Point) -> BBox {
    let knee = Point {
        x: pos.x,
        y: spec_shift(pos.y as int, dir.y as int, cfg.stub_mm + 50800),
    };
    let z = hull(spec_point_box(pos, 15240), spec_point_box(knee, 15240));
    if dir.y > 0 {
        BBox { y1: pos.y, ..z }
    } else {
        BBox { y2: pos.y, ..z }
    }
}

/// The strip of the stub of a sideways pin, and the box of the label on it.
pub open spec fn label_zones(cfg: SchConfig, n: int, pos: Point, dir: Point) -> (BBox, BBox) {
    let base = spec_stub_len(cfg, n) as int;
    let near = spec_shift(pos.x as int, dir.x as int, base) as int;
    let far = spec_shift(pos.x as int, dir.x as int, base + 127000) as int;
    let w = text_width(n);
    (
        bx(spec_min(pos.x as int, far), pos.y - 4000, spec_max(pos.x as int, far), pos.y + 4000),
        bx(
            if dir.x > 0 {
                near - w
            } else {
                far
            },
            pos.y - 22000,
            if dir.x > 0 {
                far
            } else {
                near + w
            },
            pos.y + 4000,
        ),
    )
}

/// The zones of the stub of one pin.
pub open spec fn pin_zones(b: BoardView, pi: int, pad: Seq<char>, p: PinOnNet) -> Seq<NetBox> {
    let net = b.nets[p.sn];
    if is_pair_net(b.cfg, b.design, b.placed, net) {
        match mate_position(b, net, pi, pad) {
            Some(m) => seq![NetBox { bbox: pair_strip(p.pos, p.dir, m), net: net.name }],
            None => Seq::empty(),
        }
    } else if p.dir.y != 0 {
        seq![NetBox { bbox: elbow_zone(b.cfg, p.pos, p.dir), net: net.name }]
    } else {
        let z = label_zones(b.cfg, net.name@.len() as int, p.pos, p.dir);
        seq![NetBox { bbox: z.0, net: net.name }, NetBox { bbox: z.1, net: net.name }]
    }
}

/// The zones of the first `n` pins of a component, one for each position; the positions met.
pub open spec fn comp_zones(b: BoardView, pi: int, n: int) -> (Seq<NetBox>, Seq<Point>)
    decreases n,
{
    let pins = geom_of(b.design, b.placed[pi]).pins@;
    if n <= 0 || n > pins.len() {
        (Seq::empty(), Seq::empty())
    } else {
        let before = comp_zones(b, pi, n - 1);
        match pin_on_net(b, pi, n - 1) {
            Some(p) => if b.nets[p.sn].class != NetClass::Signal || seen(before.1, p.pos) {
                before
            } else {
                (before.0 + pin_zones(b, pi, pins[n - 1].number@, p), before.1.push(p.pos))
            },
            None => before,
        }
    }
}

fn mate_of(b: &Board, net: &SheetNet, pi: usize, pad: &String) -> (r: Option<Point>)
    requires
        b.wf(),
        forall|e: int|
            0 <= e < net.endpoints@.len() ==> (#[trigger] net.endpoints@[e]).placed
                < b.placed@.len(),
    ensures
        r == mate_position(b@, *net, pi as int, pad@),
{
    let mut i: usize = 0;
    while i < net.endpoints.len()
        invariant
            i <= net.endpoints.len(),
            b.wf(),
            forall|e: int|
                0 <= e < net.endpoints@.len() ==> (#[trigger] net.endpoints@[e]).placed
                    < b.placed@.len(),
            other_end(*net, pi as int, pad@, 0) == other_end(*net, pi as int, pad@, i as int),
        decreases net.endpoints.len() - i,
    {
        if net.endpoints[i].placed != pi || net.endpoints[i].pad != *pad {
            return pad_at(b.design, &b.placed[net.endpoints[i].placed], &net.endpoints[i].pad);
        }
        i = i + 1;
    }
    None
}

fn pair_strip_of(pos: Point, dir: Point, mate: Point) -> (r: BBox)
    ensures
        r == pair_strip(pos, dir, mate),
{
    let level: bool = dir.y == 0;
    let (p, q): (i64, i64) = if level {
        (pos.x as i64, mate.x as i64)
    } else {
        (pos.y as i64, mate.y as i64)
    };
    let aligned: bool = if level {
        near_coord(pos.y, mate.y)
    } else {
        near_coord(pos.x, mate.x)
    };
    let ahead: bool = if level {
        dir.x > 0
    } else {
        dir.y > 0
    };
    let mid: i64 = half(p + q) as i64;
    let far: i64 = if aligned {
        q
    } else if ahead {
        if p + 25400 >= mid - 76200 {
            p + 25400
        } else {
            mid - 76200
        }
    } else {
        if p - 25400 <= mid + 76200 {
            p - 25400
        } else {
            mid + 76200
        }
    };
    let (lo, hi): (i64, i64) = if p <= far {
        (p, far)
    } else {
        (far, p)
    };
    if level {
        make_box(lo, pos.y as i64 - 4000, hi, pos.y as i64 + 4000)
    } else {
        make_box(pos.x as i64 - 4000, lo, pos.x as i64 + 4000, hi)
    }
}

fn push_pin_zones(
    b: &Board,
    pi: usize,
    pad: &String,
    sn: usize,
    pos: Point,
    dir: Point,
    out: &mut Vec<NetBox>,
)
    requires
        b.wf(),
        sn < b.nets@.len(),
    ensures
        final(out)@ == old(out)@ + pin_zones(
            b@,
            pi as int,
            pad@,
            PinOnNet { sn: sn as int, pos, dir },
        ),
{
    let net: &SheetNet = &b.nets[sn];
    let ghost o0 = out@;
    proof {
        assert forall|e: int| 0 <= e < net.endpoints@.len() implies (
        #[trigger] net.endpoints@[e]).placed < b.placed@.len() by {
            assert(b.nets@[sn as int].endpoints@[e].placed < b.placed@.len());
        }
    }
    if is_pair_net_static(b.cfg, b.design, b.placed, net) {
        match mate_of(b, net, pi, pad) {
            Some(m) => {
                out.push(NetBox { bbox: pair_strip_of(pos, dir, m), net: net.name.clone() });
            },
            None => {},
        }
    } else if dir.y != 0 {
        let knee: Point = Point { x: pos.x, y: shift(pos.y, dir.y, b.cfg.stub_mm as i64 + 50800) };
        let z: BBox = union_box(&point_box(pos, 15240), &point_box(knee, 15240));
        let clipped: BBox = if dir.y > 0 {
            BBox { x1: z.x1, y1: pos.y, x2: z.x2, y2: z.y2 }
        } else {
            BBox { x1: z.x1, y1: z.y1, x2: z.x2, y2: pos.y }
        };
        out.push(NetBox { bbox: clipped, net: net.name.clone() });
    } else {
        let base: i64 = label_stub_len(b.cfg, net.name.as_str()) as i64;
        let w: i64 = label_text_width(net.name.as_str()) as i64;
        let close: Iu = shift(pos.x, dir.x, base);
        let far: Iu = shift(pos.x, dir.x, base + 127000);
        let y: i64 = pos.y as i64;
        let strip: BBox = make_box(
            lesser(pos.x, far) as i64,
            y - 4000,
            greater(pos.x, far) as i64,
            y + 4000,
        );
        let label: BBox = make_box(
            if dir.x > 0 {
                close as i64 - w
            } else {
                far as i64
            },
            y - 22000,
            if dir.x > 0 {
                far as i64
            } else {
                close as i64 + w
            },
            y + 4000,
        );
        out.push(NetBox { bbox: strip, net: net.name.clone() });
        out.push(NetBox { bbox: label, net: net.name.clone() });
    }
    proof {
        assert(out@ =~= o0 + pin_zones(
            b@,
            pi as int,
            pad@,
            PinOnNet { sn: sn as int, pos, dir },
        ));
    }
}

/// The zones that the signal stubs of a component will take.
pub fn own_signal_stub_zones(b: &Board, pi: usize) -> (r: Vec<NetBox>)
    requires
        b.wf(),
        pi < b.placed@.len(),
    ensures
        r@ == comp_zones(
            b@,
            pi as int,
            geom_of(*b.design, b.placed@[pi as int]).pins@.len() as int,
        ).0,
{
    let geom: &SymbolGeom = &b.design.comps[b.placed[pi].comp].geom;
    let mut out: Vec<NetBox> = Vec::new();
    let mut met: Vec<Point> = Vec::new();
    let mut n: usize = 0;
    while n < geom.pins.len()
        invariant
            n <= geom.pins.len(),
            b.wf(),
            pi < b.placed@.len(),
            *geom == geom_of(*b.design, b.placed@[pi as int]),
            (out@, met@) == comp_zones(b@, pi as int, n as int),
        decreases geom.pins.len() - n,
    {
        match find_pin_on_net(b, pi, n) {
            Some((sn, pos, dir)) => {
                if b.nets[sn].class == NetClass::Signal && !is_seen(&met, pos) {
                    push_pin_zones(b, pi, &geom.pins[n].number.show(), sn, pos, dir, &mut out);
                    met.push(pos);
                }
            },
            None => {},
        }
        n = n + 1;
    }
    out
}

// ---------------------------------------------------------------- anchors of the texts

/// Does a drawn pin of the component point down?
pub open spec fn points_down(design: DesignModel, p: PlacedComp, n: int) -> bool
    decreases n,
{
    let pins = geom_of(design, p).pins@;
    if n <= 0 || n > pins.len() {
        false
    } else {
        points_down(design, p, n - 1) || (!pins[n - 1].hidden && match pad_outward(
            design,
            p,
            pins[n - 1].number@,
        ) {
            Some(d) => d.y > 0,
            None => false,
        })
    }
}

pub open spec fn has_bottom_pins(design: DesignModel, p: PlacedComp) -> bool {
    points_down(design, p, geom_of(design, p).pins@.len() as int)
}

pub fn has_bottom(design: &DesignModel, p: &PlacedComp) -> (r: bool)
    requires
        p.comp < design.comps@.len(),
    ensures
        r == has_bottom_pins(*design, *p),
{
    let geom: &SymbolGeom = &design.comps[p.comp].geom;
    let mut found: bool = false;
    let mut n: usize = 0;
    while n < geom.pins.len()
        invariant
            n <= geom.pins.len(),
            p.comp < design.comps@.len(),
            *geom == geom_of(*design, *p),
            found == points_down(*design, *p, n as int),
        decreases geom.pins.len() - n,
    {
        if !geom.pins[n].hidden {
            match pad_dir(design, p, &geom.pins[n].number.show()) {
                Some(d) => {
                    if d.y > 0 {
                        found = true;
                    }
                },
                None => {},
            }
        }
        n = n + 1;
    }
    found
}

/// The body of a placed component.
pub open spec fn body_only(design: DesignModel, p: PlacedComp) -> BBox {
    spec_body_box(geom_of(design, p), p.at, p.rotation as int, p.mirror)
}

pub fn body_box_of(design: &DesignModel, p: &PlacedComp) -> (b: BBox)
    requires
        p.comp < design.comps@.len(),
    ensures
        b == body_only(*design, *p),
{
    body_box(&design.comps[p.comp].geom, p.at, p.rotation, p.mirror)
}

/// Where the reference and the value are written if nothing is in the way: the reference over
/// the body, the value under it, to the right where pins point down.
pub open spec fn canonical(cfg: SchConfig, design: DesignModel, p: PlacedComp) -> (Point, Point, bool) {
    let body = body_only(design, p);
    let down = has_bottom_pins(design, p);
    let gap = spec_steps(cfg.value_gap_grid_steps as int, cfg.grid_mm as int);
    let ref_gap = spec_steps(cfg.ref_gap_grid_steps as int, cfg.grid_mm as int);
    (
        Point { x: body.x1, y: sat(body.y1 - ref_gap) },
        Point {
            x: if down {
                body.x2
            } else {
                body.x1
            },
            y: sat(body.y2 + gap),
        },
        down,
    )
}

pub fn canonical_anchors(cfg: &SchConfig, design: &DesignModel, p: &PlacedComp) -> (r: (
    Point,
    Point,
    bool,
))
    requires
        p.comp < design.comps@.len(),
    ensures
        r == canonical(*cfg, *design, *p),
{
    let body: BBox = body_box_of(design, p);
    let down: bool = has_bottom(design, p);
    let gap: Iu = steps(cfg.value_gap_grid_steps as usize, cfg.grid_mm);
    let ref_gap: Iu = steps(cfg.ref_gap_grid_steps as usize, cfg.grid_mm);
    let x: Iu = if down {
        body.x2
    } else {
        body.x1
    };
    (
        Point { x: body.x1, y: to_iu(body.y1 as i64 - ref_gap as i64) },
        Point { x, y: to_iu(body.y2 as i64 + gap as i64) },
        down,
    )
}

} // verus!
