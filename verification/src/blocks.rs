//! Blocks of child sheets, and ports that nothing on the sheet anchors.

use vstd::prelude::*;
use crate::canvas::{
    blocks_view, list_has, lists, BlockModel, BlockPin, BlockView, Canvas, Drawing, HierLabel,
    NetLabel, PowerSymbol, Scene,
};
use crate::glyphs::{label_rotation, net_label_rotation};
use crate::nets::{is_on_root, on_root};
use crate::place::{label_stub_len, spec_stub_len, SheetNet};
use crate::sheets::SheetPort;
use crate::text::width;
use crate::treelabel::Site;
use crate::units::{
    greater, sat, spec_max, spec_steps, steps, to_iu, Iu, Point,
};
use crate::warning::Warning;
use crate::writer::PortDirection;

verus! {

// ---------------------------------------------------------------- where blocks begin

/// Lowest point of the first `n` points, or `y`.
pub open spec fn lowest_point(y: Iu, path: Seq<Point>, n: int) -> Iu
    decreases n,
{
    if n <= 0 || n > path.len() {
        y
    } else {
        spec_max(lowest_point(y, path, n - 1) as int, path[n - 1].y as int) as i32
    }
}

/// Lowest point of the first `n` wires, or `y`.
pub open spec fn lowest_wire(y: Iu, wires: Seq<Seq<Point>>, n: int) -> Iu
    decreases n,
{
    if n <= 0 || n > wires.len() {
        y
    } else {
        lowest_point(lowest_wire(y, wires, n - 1), wires[n - 1], wires[n - 1].len() as int)
    }
}

/// Lowest of the first `n` labels, or `y`.
pub open spec fn lowest_label(y: Iu, v: Seq<NetLabel>, n: int) -> Iu
    decreases n,
{
    if n <= 0 || n > v.len() {
        y
    } else {
        spec_max(lowest_label(y, v, n - 1) as int, v[n - 1].at.y as int) as i32
    }
}

/// Lowest of the first `n` power symbols, or `y`; a symbol that hangs down reaches lower.
pub open spec fn lowest_symbol(y: Iu, v: Seq<PowerSymbol>, n: int) -> Iu
    decreases n,
{
    if n <= 0 || n > v.len() {
        y
    } else {
        let reach = sat(
            if v[n - 1].down {
                v[n - 1].at.y + 76200
            } else {
                v[n - 1].at.y as int
            },
        );
        spec_max(lowest_symbol(y, v, n - 1) as int, reach as int) as i32
    }
}

pub open spec fn block_origin(sc: Scene<'_>, d: Drawing) -> Point {
    let y = lowest_symbol(
        lowest_label(
            lowest_wire(sc.model.content_box.y2, d.wires, d.wires.len() as int),
            d.net_labels,
            d.net_labels.len() as int,
        ),
        d.power_symbols,
        d.power_symbols.len() as int,
    );
    Point {
        x: sc.cfg.spec_snap(
            spec_max(sc.model.content_box.x1 as int, sc.cfg.margin_left_mm as int),
        ),
        y: sc.cfg.spec_snap(y + sc.cfg.sheet_region_top_gap_mm),
    }
}

impl Canvas {
    fn block_origin_of(&self, sc: &Scene) -> (r: Point)
        requires
            sc.wf(),
        ensures
            r == block_origin(*sc, self@),
    {
        let y0: Iu = sc.model.content_box.y2;
        let mut y: Iu = y0;
        let mut k: usize = 0;
        while k < self.out.wires.len()
            invariant
                k <= self.out.wires.len(),
                y == lowest_wire(y0, self@.wires, k as int),
            decreases self.out.wires.len() - k,
        {
            let w: &Vec<Point> = &self.out.wires[k];
            let ghost before = y;
            let mut n: usize = 0;
            while n < w.len()
                invariant
                    n <= w.len(),
                    y == lowest_point(before, w@, n as int),
                decreases w.len() - n,
            {
                y = greater(y, w[n].y);
                n = n + 1;
            }
            proof {
                assert(self@.wires[k as int] == w@);
            }
            k = k + 1;
        }
        let ghost y1 = y;
        let mut n: usize = 0;
        while n < self.out.net_labels.len()
            invariant
                n <= self.out.net_labels.len(),
                y == lowest_label(y1, self.out.net_labels@, n as int),
            decreases self.out.net_labels.len() - n,
        {
            y = greater(y, self.out.net_labels[n].at.y);
            n = n + 1;
        }
        let ghost y2 = y;
        let mut n: usize = 0;
        while n < self.out.power_symbols.len()
            invariant
                n <= self.out.power_symbols.len(),
                y == lowest_symbol(y2, self.out.power_symbols@, n as int),
            decreases self.out.power_symbols.len() - n,
        {
            let s: &PowerSymbol = &self.out.power_symbols[n];
            let reach: Iu = to_iu(
                if s.down {
                    s.at.y as i64 + 76200
                } else {
                    s.at.y as i64
                },
            );
            y = greater(y, reach);
            n = n + 1;
        }
        Point {
            x: sc.cfg.snap(greater(sc.model.content_box.x1, sc.cfg.margin_left_mm) as i64),
            y: sc.cfg.snap(y as i64 + sc.cfg.sheet_region_top_gap_mm as i64),
        }
    }
}

// ---------------------------------------------------------------- the pins of a block

/// A port of this sheet that only blocks expose: the direction of the last such net among the
/// first `n`.
pub open spec fn block_port(nets: Seq<SheetNet>, name: Seq<char>, n: int) -> Option<PortDirection>
    decreases n,
{
    if n <= 0 || n > nets.len() {
        None
    } else {
        let net = nets[n - 1];
        if net.port is Some && net.on_child_blocks && net.endpoints@.len() == 0 && net.name@
            == name {
            net.port
        } else {
            block_port(nets, name, n - 1)
        }
    }
}

fn block_port_of(nets: &[SheetNet], name: &String) -> (r: Option<PortDirection>)
    ensures
        r == block_port(nets@, name@, nets@.len() as int),
{
    let mut n: usize = nets.len();
    while n > 0
        invariant
            n <= nets.len(),
            block_port(nets@, name@, nets@.len() as int) == block_port(nets@, name@, n as int),
        decreases n,
    {
        let net: &SheetNet = &nets[n - 1];
        if net.port.is_some() && net.on_child_blocks && net.endpoints.len() == 0 && net.name
            == *name {
            return net.port;
        }
        n = n - 1;
    }
    None
}

/// The ports among the first `n` that enter on the left (inputs), or on the right.
pub open spec fn ports_on(ports: Seq<SheetPort>, left: bool, n: int) -> Seq<SheetPort>
    decreases n,
{
    if n <= 0 || n > ports.len() {
        Seq::empty()
    } else if (ports[n - 1].direction == PortDirection::Input) == left {
        ports_on(ports, left, n - 1).push(ports[n - 1])
    } else {
        ports_on(ports, left, n - 1)
    }
}

/// Where pin `k` of a block's side lies.
pub open spec fn block_pin_at(edge: Iu, top: Iu, k: int) -> Point {
    Point { x: edge, y: sat(top + (spec_steps(k, 25400) + 25400)) }
}

/// Where the stub of a pin ends.
pub open spec fn block_stub_end(sc: Scene<'_>, at: Point, n: int, left: bool) -> Point {
    Point {
        x: sat(
            if left {
                at.x - spec_stub_len(*sc.cfg, n)
            } else {
                at.x + spec_stub_len(*sc.cfg, n)
            },
        ),
        y: at.y,
    }
}

/// One pin of a block with its stub, and on the stub the hierarchical label of a port that only
/// blocks expose, or a local label.
pub open spec fn block_pin_drawn(
    sc: Scene<'_>,
    d: Drawing,
    net: String,
    at: Point,
    left: bool,
) -> Drawing {
    let end = block_stub_end(sc, at, net@.len() as int, left);
    let outward: int = if left {
        180
    } else {
        0
    };
    let d1 = d.wired(seq![at, end], net);
    let port = block_port(sc.model.nets@, net@, sc.model.nets@.len() as int);
    if port is Some && !lists(d.anchored, net@) {
        d1.with_hier_label(net, port->0, Site { at: end, rotation: outward as i32 })
    } else {
        d1.with_net_label(
            net,
            Site { at: end, rotation: label_rotation(false, outward) as i32 },
        )
    }
}

/// The first `n` pins of one side of a block.
pub open spec fn side_drawn(
    sc: Scene<'_>,
    d: Drawing,
    ports: Seq<SheetPort>,
    edge: Iu,
    top: Iu,
    left: bool,
    n: int,
) -> (Drawing, Seq<BlockPin>)
    decreases n,
{
    if n <= 0 || n > ports.len() {
        (d, Seq::empty())
    } else {
        let before = side_drawn(sc, d, ports, edge, top, left, n - 1);
        let p = ports[n - 1];
        let name = sc.design.nets@[p.net as int].name;
        let at = block_pin_at(edge, top, n - 1);
        (
            block_pin_drawn(sc, before.0, name, at, left),
            before.1.push(BlockPin { net: name, direction: p.direction, at }),
        )
    }
}

/// Width and height of the block of a sheet.
pub open spec fn block_size(sc: Scene<'_>, child: int) -> Point {
    let ports = sc.plan.sheets@[child].ports@;
    let l = ports_on(ports, true, ports.len() as int).len();
    let r = ports_on(ports, false, ports.len() as int).len();
    let side = if l >= r {
        l
    } else {
        r
    };
    Point {
        x: sc.cfg.spec_snap_up(
            spec_max(
                sc.cfg.sheet_block_min_width_mm as int,
                spec_steps(sc.plan.sheets@[child].title@.len() as int, 12700) + 25400,
            ),
        ),
        y: sc.cfg.spec_snap_up(spec_max(127000, spec_steps(side as int, 25400) + 25400)),
    }
}

/// One block with its pins, inputs on the left and the others on the right.
pub open spec fn block_drawn(sc: Scene<'_>, d: Drawing, child: int, at: Point) -> Drawing {
    let ports = sc.plan.sheets@[child].ports@;
    let size = block_size(sc, child);
    let l = ports_on(ports, true, ports.len() as int);
    let r = ports_on(ports, false, ports.len() as int);
    let a = side_drawn(sc, d, l, at.x, at.y, true, l.len() as int);
    let b = side_drawn(sc, a.0, r, sat(at.x + size.x), at.y, false, r.len() as int);
    Drawing {
        blocks: b.0.blocks.push(
            BlockView { sheet: child as usize, at, size, pins: a.1 + b.1 },
        ),
        ..b.0
    }
}

/// The first `n` blocks in rows of two, the height of the row, and the height of the next one.
pub open spec fn blocks_drawn(sc: Scene<'_>, d: Drawing, children: Seq<usize>, o: Point, n: int) -> (
    Drawing,
    Iu,
    Iu,
)
    decreases n,
{
    if n <= 0 || n > children.len() {
        (d, o.y, 0)
    } else {
        let before = blocks_drawn(sc, d, children, o, n - 1);
        let child = children[n - 1] as int;
        let size = block_size(sc, child);
        let first = (n - 1) % 2 == 0;
        let row_y = if first && n > 1 {
            sat(before.1 + before.2 + sc.cfg.sheet_block_gap_y_mm)
        } else {
            before.1
        };
        let height: Iu = if first {
            0
        } else {
            before.2
        };
        let x = sc.cfg.spec_snap(
            if first {
                o.x as int
            } else {
                o.x + size.x + sc.cfg.sheet_block_gap_x_mm
            },
        );
        let at = Point { x, y: sc.cfg.spec_snap(row_y as int) };
        (
            block_drawn(sc, before.0, child, at),
            row_y,
            spec_max(height as int, size.y as int) as i32,
        )
    }
}

/// The blocks of the child sheets, below everything else.
pub open spec fn all_blocks_drawn(sc: Scene<'_>, d: Drawing) -> Drawing {
    let children = sc.plan.sheets@[sc.model.sheet as int].children@;
    blocks_drawn(sc, d, children, block_origin(sc, d), children.len() as int).0
}

pub open spec fn ports_wf(sc: Scene<'_>, ports: Seq<SheetPort>) -> bool {
    forall|i: int| 0 <= i < ports.len() ==> (#[trigger] ports[i]).net < sc.design.nets@.len()
}

fn select_ports(sc: &Scene, ports: &[SheetPort], left: bool) -> (r: Vec<SheetPort>)
    requires
        ports_wf(*sc, ports@),
    ensures
        r@ == ports_on(ports@, left, ports@.len() as int),
        ports_wf(*sc, r@),
{
    let mut out: Vec<SheetPort> = Vec::new();
    let mut n: usize = 0;
    while n < ports.len()
        invariant
            n <= ports.len(),
            ports_wf(*sc, ports@),
            out@ == ports_on(ports@, left, n as int),
            ports_wf(*sc, out@),
        decreases ports.len() - n,
    {
        if (ports[n].direction == PortDirection::Input) == left {
            out.push(ports[n]);
        }
        n = n + 1;
    }
    out
}

impl Canvas {
    fn draw_block_pin(&mut self, sc: &Scene, net: &String, at: Point, left: bool)
        requires
            sc.wf(),
        ensures
            final(self)@ == block_pin_drawn(*sc, old(self)@, *net, at, left),
    {
        let len: i64 = label_stub_len(sc.cfg, net.as_str()) as i64;
        let end: Point = Point {
            x: to_iu(
                if left {
                    at.x as i64 - len
                } else {
                    at.x as i64 + len
                },
            ),
            y: at.y,
        };
        let outward: i32 = if left {
            180
        } else {
            0
        };
        let path: Vec<Point> = vec![at, end];
        proof {
            assert(path@ =~= seq![at, end]);
        }
        let free: bool = !list_has(&self.port_anchored, net);
        self.wire(path, net);
        match block_port_of(&sc.model.nets, net) {
            Some(direction) => {
                if free {
                    self.add_hier_label(net, direction, Site { at: end, rotation: outward });
                    return;
                }
            },
            None => {},
        }
        self.add_net_label(net, Site { at: end, rotation: net_label_rotation(false, outward) });
    }

    fn draw_side(
        &mut self,
        sc: &Scene,
        ports: &[SheetPort],
        edge: Iu,
        top: Iu,
        left: bool,
        pins: &mut Vec<BlockPin>,
    )
        requires
            sc.wf(),
            ports_wf(*sc, ports@),
        ensures
            ({
                let s = side_drawn(
                    *sc,
                    old(self)@,
                    ports@,
                    edge,
                    top,
                    left,
                    ports@.len() as int,
                );
                final(self)@ == s.0 && final(pins)@ == old(pins)@ + s.1
            }),
    {
        let ghost d0 = self@;
        let ghost p0 = pins@;
        let mut n: usize = 0;
        proof {
            assert(p0 =~= p0 + side_drawn(*sc, d0, ports@, edge, top, left, 0).1);
        }
        while n < ports.len()
            invariant
                n <= ports.len(),
                sc.wf(),
                ports_wf(*sc, ports@),
                self@ == side_drawn(*sc, d0, ports@, edge, top, left, n as int).0,
                pins@ == p0 + side_drawn(*sc, d0, ports@, edge, top, left, n as int).1,
            decreases ports.len() - n,
        {
            let name: &String = &sc.design.nets[ports[n].net].name;
            let at: Point = Point {
                x: edge,
                y: to_iu(top as i64 + (steps(n, 25400) as i64 + 25400)),
            };
            self.draw_block_pin(sc, name, at, left);
            pins.push(BlockPin { net: name.clone(), direction: ports[n].direction, at });
            n = n + 1;
            proof {
                assert(pins@ =~= p0 + side_drawn(
                    *sc,
                    d0,
                    ports@,
                    edge,
                    top,
                    left,
                    n as int,
                ).1);
            }
        }
    }

    fn block_size_of(sc: &Scene, child: usize, l: usize, r: usize) -> (size: Point)
        requires
            sc.wf(),
            child < sc.plan.sheets@.len(),
            l == ports_on(
                sc.plan.sheets@[child as int].ports@,
                true,
                sc.plan.sheets@[child as int].ports@.len() as int,
            ).len(),
            r == ports_on(
                sc.plan.sheets@[child as int].ports@,
                false,
                sc.plan.sheets@[child as int].ports@.len() as int,
            ).len(),
        ensures
            size == block_size(*sc, child as int),
    {
        let side: usize = if l >= r {
            l
        } else {
            r
        };
        let wide: i64 = steps(width(sc.plan.sheets[child].title.show().as_str()), 12700) as i64 + 25400;
        let tall: i64 = steps(side, 25400) as i64 + 25400;
        let least: i64 = sc.cfg.sheet_block_min_width_mm as i64;
        Point {
            x: sc.cfg.snap_up(
                if least >= wide {
                    least
                } else {
                    wide
                },
            ),
            y: sc.cfg.snap_up(
                if 127000 >= tall {
                    127000
                } else {
                    tall
                },
            ),
        }
    }

    fn draw_block(&mut self, sc: &Scene, child: usize, at: Point, size: Point)
        requires
            sc.wf(),
            child < sc.plan.sheets@.len(),
            size == block_size(*sc, child as int),
        ensures
            final(self)@ == block_drawn(*sc, old(self)@, child as int, at),
    {
        let ports: &[SheetPort] = &sc.plan.sheets[child].ports;
        proof {
            assert forall|i: int| 0 <= i < ports@.len() implies (#[trigger] ports@[i]).net
                < sc.design.nets@.len() by {
                assert(sc.plan.sheets@[child as int].ports@[i].net < sc.design.nets@.len());
            }
        }
        let l: Vec<SheetPort> = select_ports(sc, ports, true);
        let r: Vec<SheetPort> = select_ports(sc, ports, false);
        let mut pins: Vec<BlockPin> = Vec::new();
        self.draw_side(sc, &l, at.x, at.y, true, &mut pins);
        self.draw_side(sc, &r, to_iu(at.x as i64 + size.x as i64), at.y, false, &mut pins);
        let ghost before = self.out.blocks@;
        let ghost all = pins@;
        self.out.blocks.push(BlockModel { sheet: child, at, size, pins });
        proof {
            let b = BlockView { sheet: child, at, size, pins: all };
            assert(blocks_view(self.out.blocks@) =~= blocks_view(before).push(b));
            let s = block_drawn(*sc, old(self)@, child as int, at);
            assert(Seq::<BlockPin>::empty() + side_drawn(
                *sc,
                old(self)@,
                l@,
                at.x,
                at.y,
                true,
                l@.len() as int,
            ).1 =~= side_drawn(*sc, old(self)@, l@, at.x, at.y, true, l@.len() as int).1);
        }
    }

    /// Draw the blocks of the child sheets.
    pub fn place_blocks(&mut self, sc: &Scene)
        requires
            sc.wf(),
        ensures
            final(self)@ == all_blocks_drawn(*sc, old(self)@),
    {
        let children: &[usize] = &sc.plan.sheets[sc.model.sheet].children;
        if children.len() == 0 {
            return;
        }
        let o: Point = self.block_origin_of(sc);
        let ghost d0 = self@;
        let mut row_y: Iu = o.y;
        let mut row_h: Iu = 0;
        let mut n: usize = 0;
        while n < children.len()
            invariant
                n <= children.len(),
                sc.wf(),
                children@ == sc.plan.sheets@[sc.model.sheet as int].children@,
                (self@, row_y, row_h) == blocks_drawn(*sc, d0, children@, o, n as int),
            decreases children.len() - n,
        {
            let child: usize = children[n];
            proof {
                assert(sc.plan.sheets@[sc.model.sheet as int].children@[n as int]
                    < sc.plan.sheets@.len());
                assert forall|i: int|
                    0 <= i < sc.plan.sheets@[child as int].ports@.len() implies (
                #[trigger] sc.plan.sheets@[child as int].ports@[i]).net
                    < sc.design.nets@.len() by {}
            }
            let l: usize = select_ports(sc, &sc.plan.sheets[child].ports, true).len();
            let r: usize = select_ports(sc, &sc.plan.sheets[child].ports, false).len();
            let size: Point = Canvas::block_size_of(sc, child, l, r);
            let first: bool = n % 2 == 0;
            if first {
                if n > 0 {
                    row_y = to_iu(
                        row_y as i64 + row_h as i64 + sc.cfg.sheet_block_gap_y_mm as i64,
                    );
                }
                row_h = 0;
            }
            let x: Iu = sc.cfg.snap(
                if first {
                    o.x as i64
                } else {
                    o.x as i64 + size.x as i64 + sc.cfg.sheet_block_gap_x_mm as i64
                },
            );
            let at: Point = Point { x, y: sc.cfg.snap(row_y as i64) };
            self.draw_block(sc, child, at, size);
            row_h = greater(row_h, size.y);
            n = n + 1;
        }
    }
}

// ---------------------------------------------------------------- ports without an anchor

/// The nets among the first `n` that are ports without a hierarchical label.
pub open spec fn unanchored(sc: Scene<'_>, anchored: Seq<String>, n: int) -> Seq<usize>
    decreases n,
{
    if n <= 0 || n > sc.model.nets@.len() {
        Seq::empty()
    } else {
        let net = sc.model.nets@[n - 1];
        if net.port is Some && !lists(anchored, net.name@) {
            unanchored(sc, anchored, n - 1).push((n - 1) as usize)
        } else {
            unanchored(sc, anchored, n - 1)
        }
    }
}

/// A port on the edge column: its hierarchical label, a stub, and a local label on the stub.
pub open spec fn edge_port(sc: Scene<'_>, d: Drawing, net: SheetNet, k: int, top: Iu) -> Drawing {
    let c = sc.model.content_box;
    let out = net.port == Some(PortDirection::Output);
    let x = sc.cfg.spec_snap(
        if out {
            c.x2 + sc.cfg.port_column_mm
        } else {
            c.x1 - sc.cfg.port_column_mm
        },
    );
    let y = sc.cfg.spec_snap(top + spec_steps(k, sc.cfg.port_pitch_mm as int));
    let at = Point { x, y };
    let end = block_stub_end(sc, at, net.name@.len() as int, out);
    let outward: int = if out {
        0
    } else {
        180
    };
    let d1 = d.warned(Warning::PortFallback { net: net.name }).wired(seq![at, end], net.name);
    Drawing {
        hier_labels: d1.hier_labels.push(
            HierLabel {
                net: net.name,
                direction: net.port->0,
                at,
                rotation: outward as i32,
            },
        ),
        net_labels: d1.net_labels.push(
            NetLabel {
                net: net.name,
                at: end,
                rotation: label_rotation(false, (outward + 180) % 360) as i32,
            },
        ),
        ..d1
    }
}

/// The first `n` ports on the edge columns, and how many stand on the left and on the right.
pub open spec fn edge_ports(sc: Scene<'_>, d: Drawing, list: Seq<usize>, top: Iu, n: int) -> (
    Drawing,
    int,
    int,
)
    decreases n,
{
    if n <= 0 || n > list.len() {
        (d, 0, 0)
    } else {
        let before = edge_ports(sc, d, list, top, n - 1);
        let net = sc.model.nets@[list[n - 1] as int];
        if net.port == Some(PortDirection::Output) {
            (edge_port(sc, before.0, net, before.2, top), before.1, before.2 + 1)
        } else {
            (edge_port(sc, before.0, net, before.1, top), before.1 + 1, before.2)
        }
    }
}

/// The ports that nothing anchors, on columns beside the content. The root sheet has no ports.
pub open spec fn fallback_ports(sc: Scene<'_>, d: Drawing) -> Drawing {
    if on_root(sc) {
        if sc.plan.sheets@[sc.model.sheet as int].ports@.len() > 0 {
            d.warned(Warning::RootPorts)
        } else {
            d
        }
    } else {
        let list = unanchored(sc, d.anchored, sc.model.nets@.len() as int);
        let top = sc.cfg.spec_snap(sc.model.content_box.y1 + 25400);
        edge_ports(sc, d, list, top, list.len() as int).0
    }
}

impl Canvas {
    fn draw_edge_port(&mut self, sc: &Scene, net: &SheetNet, k: usize, top: Iu)
        requires
            sc.wf(),
            net.port is Some,
        ensures
            final(self)@ == edge_port(*sc, old(self)@, *net, k as int, top),
    {
        let direction: PortDirection = match net.port {
            Some(p) => p,
            None => PortDirection::Bidirectional,
        };
        let out: bool = direction == PortDirection::Output;
        let x: Iu = sc.cfg.snap(
            if out {
                sc.model.content_box.x2 as i64 + sc.cfg.port_column_mm as i64
            } else {
                sc.model.content_box.x1 as i64 - sc.cfg.port_column_mm as i64
            },
        );
        let y: Iu = sc.cfg.snap(top as i64 + steps(k, sc.cfg.port_pitch_mm) as i64);
        let at: Point = Point { x, y };
        let len: i64 = label_stub_len(sc.cfg, net.name.as_str()) as i64;
        let end: Point = Point {
            x: to_iu(
                if out {
                    at.x as i64 - len
                } else {
                    at.x as i64 + len
                },
            ),
            y,
        };
        let rotation: i32 = if out {
            0
        } else {
            180
        };
        let back: i32 = if out {
            180
        } else {
            0
        };
        self.warn(Warning::PortFallback { net: net.name.clone() });
        let path: Vec<Point> = vec![at, end];
        proof {
            assert(path@ =~= seq![at, end]);
        }
        self.wire(path, &net.name);
        self.out.hier_labels.push(HierLabel { net: net.name.clone(), direction, at, rotation });
        self.out.net_labels.push(
            NetLabel {
                net: net.name.clone(),
                at: end,
                rotation: net_label_rotation(false, back),
            },
        );
    }

    /// Draw the ports that nothing on the sheet anchors.
    pub fn place_port_fallbacks(&mut self, sc: &Scene)
        requires
            sc.wf(),
        ensures
            final(self)@ == fallback_ports(*sc, old(self)@),
    {
        if is_on_root(sc) {
            if sc.plan.sheets[sc.model.sheet].ports.len() > 0 {
                self.warn(Warning::RootPorts);
            }
            return;
        }
        let ghost d0 = self@;
        let mut list: Vec<usize> = Vec::new();
        let mut n: usize = 0;
        while n < sc.model.nets.len()
            invariant
                n <= sc.model.nets.len(),
                self@ == d0,
                list@ == unanchored(*sc, d0.anchored, n as int),
                forall|i: int|
                    0 <= i < list@.len() ==> #[trigger] list@[i] < sc.model.nets@.len()
                        && sc.model.nets@[list@[i] as int].port is Some,
            decreases sc.model.nets.len() - n,
        {
            let net: &SheetNet = &sc.model.nets[n];
            if net.port.is_some() && !list_has(&self.port_anchored, &net.name) {
                list.push(n);
            }
            n = n + 1;
        }
        let top: Iu = sc.cfg.snap(sc.model.content_box.y1 as i64 + 25400);
        let mut left: usize = 0;
        let mut right: usize = 0;
        let mut n: usize = 0;
        while n < list.len()
            invariant
                n <= list.len(),
                sc.wf(),
                left + right == n,
                forall|i: int|
                    0 <= i < list@.len() ==> #[trigger] list@[i] < sc.model.nets@.len()
                        && sc.model.nets@[list@[i] as int].port is Some,
                (self@, left as int, right as int) == edge_ports(*sc, d0, list@, top, n as int),
            decreases list.len() - n,
        {
            let net: &SheetNet = &sc.model.nets[list[n]];
            if net.port == Some(PortDirection::Output) {
                self.draw_edge_port(sc, net, right, top);
                right = right + 1;
            } else {
                self.draw_edge_port(sc, net, left, top);
                left = left + 1;
            }
            n = n + 1;
        }
    }
}

} // verus!
