//! The pins of the blocks of child sheets are joined to the nets of the sheet.

use vstd::prelude::*;
use crate::blocks::{
    all_blocks_drawn, block_drawn, block_origin, block_pin_at, block_pin_drawn, block_port,
    block_size, block_stub_end, blocks_drawn, edge_ports, fallback_ports, ports_on, side_drawn,
    unanchored,
};
use crate::canvas::{lists, BlockPin, BlockView, Drawing, Scene};
use crate::linked::{drawn_for, lemma_drawn_stays, lemma_wired};
use crate::model::DesignModel;
use crate::sheets::SheetPort;
use crate::units::{sat, Iu, Point};
use crate::writer::PortDirection;

verus! {

// ---------------------------------------------------------------- labels at the end of a stub

/// A local or a hierarchical label of the net stands at the point.
pub open spec fn names_net(d: Drawing, net: Seq<char>, at: Point) -> bool {
    ||| exists|i: int|
        0 <= i < d.net_labels.len() && (#[trigger] d.net_labels[i]).net@ == net
            && d.net_labels[i].at == at
    ||| exists|i: int|
        0 <= i < d.hier_labels.len() && (#[trigger] d.hier_labels[i]).net@ == net
            && d.hier_labels[i].at == at
}

/// A wire of the net runs level from the point to a label of the net.
pub open spec fn stub_named(d: Drawing, net: Seq<char>, at: Point) -> bool {
    exists|k: int, p: int| #[trigger]
        drawn_for(d, net, k, p) && leads_to_name(d, net, at, k)
}

/// Wire `k` runs from the point, along its row, to a label of the net.
pub open spec fn leads_to_name(d: Drawing, net: Seq<char>, at: Point, k: int) -> bool {
    &&& d.wires[k].len() == 2
    &&& d.wires[k][0] == at
    &&& d.wires[k][1].y == at.y
    &&& names_net(d, net, d.wires[k][1])
}

/// Every pin of the block has a stub with a label of its net.
pub open spec fn block_joined(d: Drawing, b: BlockView) -> bool {
    forall|i: int|
        0 <= i < b.pins.len() ==> stub_named(d, (#[trigger] b.pins[i]).net@, b.pins[i].at)
}

pub open spec fn pins_joined(d: Drawing, pins: Seq<BlockPin>) -> bool {
    forall|i: int| 0 <= i < pins.len() ==> stub_named(d, (#[trigger] pins[i]).net@, pins[i].at)
}

/// Nothing is lost, and the blocks stay.
pub open spec fn keeps_blocks(after: Drawing, before: Drawing) -> bool {
    &&& before.wires.is_prefix_of(after.wires)
    &&& before.reg.segs.is_prefix_of(after.reg.segs)
    &&& before.net_labels.is_prefix_of(after.net_labels)
    &&& before.global_labels.is_prefix_of(after.global_labels)
    &&& before.hier_labels.is_prefix_of(after.hier_labels)
    &&& before.blocks.is_prefix_of(after.blocks)
    &&& before.junctions.is_prefix_of(after.junctions)
    &&& after.reg.pins == before.reg.pins
    &&& after.no_connects == before.no_connects
}

proof fn lemma_blocks_trans(a: Drawing, b: Drawing, c: Drawing)
    requires
        keeps_blocks(b, a),
        keeps_blocks(c, b),
    ensures
        keeps_blocks(c, a),
{
}

pub proof fn lemma_named_stays(a: Drawing, b: Drawing, net: Seq<char>, at: Point)
    requires
        keeps_blocks(b, a),
        names_net(a, net, at),
    ensures
        names_net(b, net, at),
{
    if exists|i: int|
        0 <= i < a.net_labels.len() && (#[trigger] a.net_labels[i]).net@ == net
            && a.net_labels[i].at == at {
        let i = choose|i: int|
            0 <= i < a.net_labels.len() && (#[trigger] a.net_labels[i]).net@ == net
                && a.net_labels[i].at == at;
        assert(b.net_labels[i] == a.net_labels[i]);
    } else {
        let i = choose|i: int|
            0 <= i < a.hier_labels.len() && (#[trigger] a.hier_labels[i]).net@ == net
                && a.hier_labels[i].at == at;
        assert(b.hier_labels[i] == a.hier_labels[i]);
    }
}

proof fn lemma_stub_stays(a: Drawing, b: Drawing, net: Seq<char>, at: Point)
    requires
        keeps_blocks(b, a),
        stub_named(a, net, at),
    ensures
        stub_named(b, net, at),
{
    let (k, p) = choose|k: int, p: int| #[trigger]
        drawn_for(a, net, k, p) && leads_to_name(a, net, at, k);
    let c = Drawing {
        blocks: a.blocks,
        hier_labels: a.hier_labels,
        anchored: a.anchored,
        ..b
    };
    lemma_drawn_stays(a, c, net, k, p);
    assert(drawn_for(b, net, k, p));
    lemma_named_stays(a, b, net, a.wires[k][1]);
    assert(leads_to_name(b, net, at, k));
}

proof fn lemma_pins_stay(a: Drawing, b: Drawing, pins: Seq<BlockPin>)
    requires
        keeps_blocks(b, a),
        pins_joined(a, pins),
    ensures
        pins_joined(b, pins),
{
    assert forall|i: int| 0 <= i < pins.len() implies stub_named(
        b,
        (#[trigger] pins[i]).net@,
        pins[i].at,
    ) by {
        lemma_stub_stays(a, b, pins[i].net@, pins[i].at);
    }
}

proof fn lemma_pin_drawn(sc: Scene<'_>, d: Drawing, net: String, at: Point, left: bool)
    ensures
        keeps_blocks(block_pin_drawn(sc, d, net, at, left), d),
        stub_named(block_pin_drawn(sc, d, net, at, left), net@, at),
{
    let b = block_pin_drawn(sc, d, net, at, left);
    let end = block_stub_end(sc, at, net@.len() as int, left);
    let path = seq![at, end];
    let w = d.wired(path, net);
    lemma_wired(d, path, net);
    assert(keeps_blocks(w, d));
    let k = d.wires.len() as int;
    let p = d.reg.segs.len() as int;
    assert(keeps_blocks(b, w));
    let c = Drawing {
        blocks: w.blocks,
        hier_labels: w.hier_labels,
        anchored: w.anchored,
        ..b
    };
    lemma_drawn_stays(w, c, net@, k, p);
    assert(drawn_for(b, net@, k, p));
    let port = block_port(sc.model.nets@, net@, sc.model.nets@.len() as int);
    if port is Some && !lists(d.anchored, net@) {
        assert(b.hier_labels[d.hier_labels.len() as int].at == end);
        assert(b.hier_labels[d.hier_labels.len() as int].net@ == net@);
    } else {
        assert(b.net_labels[d.net_labels.len() as int].at == end);
        assert(b.net_labels[d.net_labels.len() as int].net@ == net@);
    }
    assert(names_net(b, net@, end));
    assert(leads_to_name(b, net@, at, k));
}

/// The pins are those of the ports, in their order, on the edge.
pub open spec fn pins_of_ports(design: DesignModel, pins: Seq<BlockPin>, ports: Seq<SheetPort>, edge: Iu) -> bool {
    &&& pins.len() == ports.len()
    &&& forall|i: int|
        0 <= i < pins.len() ==> (#[trigger] pins[i]).net@ == design.nets@[ports[i].net as int].name@
            && pins[i].direction == ports[i].direction && pins[i].at.x == edge
}

proof fn lemma_side(
    sc: Scene<'_>,
    d: Drawing,
    ports: Seq<SheetPort>,
    edge: Iu,
    top: Iu,
    left: bool,
    n: int,
)
    requires
        0 <= n <= ports.len(),
    ensures
        ({
            let r = side_drawn(sc, d, ports, edge, top, left, n);
            &&& keeps_blocks(r.0, d)
            &&& r.0.blocks == d.blocks
            &&& pins_joined(r.0, r.1)
            &&& pins_of_ports(*sc.design, r.1, ports.take(n), edge)
        }),
    decreases n,
{
    if n > 0 {
        lemma_side(sc, d, ports, edge, top, left, n - 1);
        let before = side_drawn(sc, d, ports, edge, top, left, n - 1);
        let r = side_drawn(sc, d, ports, edge, top, left, n);
        let name = sc.design.nets@[ports[n - 1].net as int].name;
        let at = block_pin_at(edge, top, n - 1);
        lemma_pin_drawn(sc, before.0, name, at, left);
        lemma_blocks_trans(d, before.0, r.0);
        lemma_pins_stay(before.0, r.0, before.1);
        assert forall|i: int| 0 <= i < r.1.len() implies stub_named(
            r.0,
            (#[trigger] r.1[i]).net@,
            r.1[i].at,
        ) by {
            if i < n - 1 {
                assert(r.1[i] == before.1[i]);
            }
        }
        assert forall|i: int| 0 <= i < r.1.len() implies (#[trigger] r.1[i]).net@
            == sc.design.nets@[ports.take(n)[i].net as int].name@ && r.1[i].direction
            == ports.take(n)[i].direction && r.1[i].at.x == edge by {
            if i < n - 1 {
                assert(r.1[i] == before.1[i]);
                assert(ports.take(n)[i] == ports.take(n - 1)[i]);
            }
        }
    }
}

// ---------------------------------------------------------------- blocks and ports

/// The pin stands for the port: its net, its direction, and the edge: inputs on the left.
pub open spec fn pin_for(design: DesignModel, pin: BlockPin, port: SheetPort, b: BlockView) -> bool {
    &&& pin.net@ == design.nets@[port.net as int].name@
    &&& pin.direction == port.direction
    &&& port.direction == PortDirection::Input ==> pin.at.x == b.at.x
    &&& port.direction != PortDirection::Input ==> pin.at.x == sat(b.at.x + b.size.x)
}

/// Every port has a pin on the block.
#[verifier::opaque]
pub open spec fn ports_have_pins(design: DesignModel, b: BlockView, ports: Seq<SheetPort>) -> bool {
    forall|p: int|
        0 <= p < ports.len() ==> exists|i: int|
            0 <= i < b.pins.len() && pin_for(design, #[trigger] b.pins[i], #[trigger] ports[p], b)
}

/// Every pin of the block has a port.
#[verifier::opaque]
pub open spec fn pins_have_ports(design: DesignModel, b: BlockView, ports: Seq<SheetPort>) -> bool {
    forall|i: int|
        0 <= i < b.pins.len() ==> exists|p: int|
            0 <= p < ports.len() && pin_for(design, #[trigger] b.pins[i], #[trigger] ports[p], b)
}

/// The block stands for the sheet: every port of the sheet has a pin, and every pin a port.
pub open spec fn block_for(design: DesignModel, b: BlockView, ports: Seq<SheetPort>) -> bool {
    &&& b.pins.len() == ports.len()
    &&& ports_have_pins(design, b, ports)
    &&& pins_have_ports(design, b, ports)
}

proof fn lemma_ports_split(ports: Seq<SheetPort>, n: int)
    requires
        0 <= n <= ports.len(),
    ensures
        ports_on(ports, true, n).len() + ports_on(ports, false, n).len() == n,
        forall|p: int|
            0 <= p < n ==> ports_on(
                ports,
                ports[p].direction == PortDirection::Input,
                n,
            ).contains(#[trigger] ports[p]),
        forall|left: bool, i: int|
            0 <= i < ports_on(ports, left, n).len() ==> listed_port(
                ports,
                #[trigger] ports_on(ports, left, n)[i],
                left,
            ),
    decreases n,
{
    if n > 0 {
        lemma_ports_split(ports, n - 1);
        let side = ports[n - 1].direction == PortDirection::Input;
        assert forall|p: int| 0 <= p < n implies ports_on(
            ports,
            ports[p].direction == PortDirection::Input,
            n,
        ).contains(#[trigger] ports[p]) by {
            let own = ports[p].direction == PortDirection::Input;
            let now = ports_on(ports, own, n);
            let before = ports_on(ports, own, n - 1);
            if p == n - 1 {
                assert(now[before.len() as int] == ports[p]);
            } else {
                assert(before.contains(ports[p]));
                let k = choose|k: int| 0 <= k < before.len() && before[k] == ports[p];
                assert(now[k] == ports[p]);
            }
        }
        assert forall|left: bool, i: int| 0 <= i < ports_on(ports, left, n).len() implies listed_port(
            ports,
            #[trigger] ports_on(ports, left, n)[i],
            left,
        ) by {
            let before = ports_on(ports, left, n - 1);
            if i < before.len() {
                assert(ports_on(ports, left, n)[i] == before[i]);
                assert(listed_port(ports, before[i], left));
            } else {
                assert(ports[n - 1] == ports_on(ports, left, n)[i]);
            }
        }
    }
}

/// The port is one of the listed ones, and enters on that side.
pub open spec fn listed_port(ports: Seq<SheetPort>, port: SheetPort, left: bool) -> bool {
    &&& exists|p: int| 0 <= p < ports.len() && #[trigger] ports[p] == port
    &&& (port.direction == PortDirection::Input) == left
}

/// The pins of the block are those of the two sides, one behind the other.
pub open spec fn pins_by_side(
    design: DesignModel,
    block: BlockView,
    ports: Seq<SheetPort>,
    a: Seq<BlockPin>,
    b: Seq<BlockPin>,
) -> bool {
    &&& block.pins == a + b
    &&& pins_of_ports(design, a, ports_on(ports, true, ports.len() as int), block.at.x)
    &&& pins_of_ports(
        design,
        b,
        ports_on(ports, false, ports.len() as int),
        sat(block.at.x + block.size.x),
    )
}

proof fn lemma_ports_have_pins(
    design: DesignModel,
    block: BlockView,
    ports: Seq<SheetPort>,
    a: Seq<BlockPin>,
    b: Seq<BlockPin>,
)
    requires
        pins_by_side(design, block, ports, a, b),
    ensures
        ports_have_pins(design, block, ports),
{
    reveal(ports_have_pins);
    let l = ports_on(ports, true, ports.len() as int);
    let r = ports_on(ports, false, ports.len() as int);
    lemma_ports_split(ports, ports.len() as int);
    assert forall|p: int| 0 <= p < ports.len() implies exists|i: int|
        0 <= i < block.pins.len() && pin_for(
            design,
            #[trigger] block.pins[i],
            #[trigger] ports[p],
            block,
        ) by {
        if ports[p].direction == PortDirection::Input {
            assert(l.contains(ports[p]));
            let k = choose|k: int| 0 <= k < l.len() && l[k] == ports[p];
            assert(block.pins[k] == a[k]);
            assert(pin_for(design, block.pins[k], ports[p], block));
        } else {
            assert(r.contains(ports[p]));
            let k = choose|k: int| 0 <= k < r.len() && r[k] == ports[p];
            assert(block.pins[l.len() + k] == b[k]);
            assert(pin_for(design, block.pins[l.len() + k], ports[p], block));
        }
    }
}

proof fn lemma_pins_have_ports(
    design: DesignModel,
    block: BlockView,
    ports: Seq<SheetPort>,
    a: Seq<BlockPin>,
    b: Seq<BlockPin>,
)
    requires
        pins_by_side(design, block, ports, a, b),
    ensures
        pins_have_ports(design, block, ports),
        block.pins.len() == ports.len(),
{
    reveal(pins_have_ports);
    let l = ports_on(ports, true, ports.len() as int);
    let r = ports_on(ports, false, ports.len() as int);
    lemma_ports_split(ports, ports.len() as int);
    assert forall|i: int| 0 <= i < block.pins.len() implies exists|p: int|
        0 <= p < ports.len() && pin_for(
            design,
            #[trigger] block.pins[i],
            #[trigger] ports[p],
            block,
        ) by {
        if i < l.len() {
            assert(block.pins[i] == a[i]);
            assert(listed_port(ports, l[i], true));
            let p = choose|p: int| 0 <= p < ports.len() && #[trigger] ports[p] == l[i];
            assert(pin_for(design, block.pins[i], ports[p], block));
        } else {
            let k = i - l.len();
            assert(block.pins[i] == b[k]);
            assert(listed_port(ports, r[k], false));
            let p = choose|p: int| 0 <= p < ports.len() && #[trigger] ports[p] == r[k];
            assert(pin_for(design, block.pins[i], ports[p], block));
        }
    }
}

#[verifier::spinoff_prover]
proof fn lemma_block(sc: Scene<'_>, d: Drawing, child: int, at: Point)
    requires
        0 <= child <= usize::MAX,
    ensures
        ({
            let r = block_drawn(sc, d, child, at);
            &&& keeps_blocks(r, d)
            &&& r.blocks.len() == d.blocks.len() + 1
            &&& r.blocks.last().sheet == child
            &&& block_joined(r, r.blocks.last())
            &&& block_for(*sc.design, r.blocks.last(), sc.plan.sheets@[child].ports@)
        }),
{
    let ports = sc.plan.sheets@[child].ports@;
    let size = block_size(sc, child);
    let l = ports_on(ports, true, ports.len() as int);
    let r = ports_on(ports, false, ports.len() as int);
    let right = sat(at.x + size.x);
    lemma_side(sc, d, l, at.x, at.y, true, l.len() as int);
    let a = side_drawn(sc, d, l, at.x, at.y, true, l.len() as int);
    lemma_side(sc, a.0, r, right, at.y, false, r.len() as int);
    let b = side_drawn(sc, a.0, r, right, at.y, false, r.len() as int);
    let out = block_drawn(sc, d, child, at);
    let block = out.blocks.last();
    assert(l.take(l.len() as int) =~= l);
    assert(r.take(r.len() as int) =~= r);
    assert(out.blocks == b.0.blocks.push(block));
    assert(block.pins == a.1 + b.1 && block.at == at && block.size == size);
    lemma_ports_have_pins(*sc.design, block, ports, a.1, b.1);
    lemma_pins_have_ports(*sc.design, block, ports, a.1, b.1);
    lemma_blocks_trans(d, a.0, b.0);
    assert(keeps_blocks(out, b.0));
    lemma_blocks_trans(d, b.0, out);
    lemma_pins_stay(a.0, b.0, a.1);
    lemma_pins_stay(b.0, out, a.1);
    lemma_pins_stay(b.0, out, b.1);
    assert forall|i: int| 0 <= i < block.pins.len() implies stub_named(
        out,
        (#[trigger] block.pins[i]).net@,
        block.pins[i].at,
    ) by {
        if i < a.1.len() {
            assert(block.pins[i] == a.1[i]);
        } else {
            assert(block.pins[i] == b.1[i - a.1.len()]);
        }
    }
}

/// Every child has its block, in order, joined to the nets of the sheet.
pub open spec fn children_joined(sc: Scene<'_>, d: Drawing, before: int, children: Seq<usize>) -> bool {
    &&& d.blocks.len() == before + children.len()
    &&& forall|c: int|
        0 <= c < children.len() ==> child_joined(sc, d, before + c, #[trigger] children[c])
}

/// Block number `k` stands for the child, and each of its pins has a stub with a label of its net.
pub open spec fn child_joined(sc: Scene<'_>, d: Drawing, k: int, child: usize) -> bool {
    let b = d.blocks[k];
    &&& b.sheet == child
    &&& block_joined(d, b)
    &&& block_for(*sc.design, b, sc.plan.sheets@[child as int].ports@)
}

proof fn lemma_child_stays(sc: Scene<'_>, a: Drawing, b: Drawing, k: int, child: usize)
    requires
        keeps_blocks(b, a),
        0 <= k < a.blocks.len(),
        child_joined(sc, a, k, child),
    ensures
        child_joined(sc, b, k, child),
{
    assert(b.blocks[k] == a.blocks[k]);
    lemma_pins_stay(a, b, a.blocks[k].pins);
}

pub proof fn lemma_blocks_joined(sc: Scene<'_>, d: Drawing, children: Seq<usize>, o: Point, n: int)
    requires
        0 <= n <= children.len(),
    ensures
        ({
            let r = blocks_drawn(sc, d, children, o, n).0;
            keeps_blocks(r, d) && children_joined(sc, r, d.blocks.len() as int, children.take(n))
        }),
    decreases n,
{
    if n > 0 {
        lemma_blocks_joined(sc, d, children, o, n - 1);
        let before = blocks_drawn(sc, d, children, o, n - 1);
        let r = blocks_drawn(sc, d, children, o, n).0;
        let at = r.blocks.last().at;
        lemma_block(sc, before.0, children[n - 1] as int, at);
        assert(r == block_drawn(sc, before.0, children[n - 1] as int, at));
        lemma_blocks_trans(d, before.0, r);
        let list = children.take(n);
        assert forall|c: int| 0 <= c < list.len() implies child_joined(
            sc,
            r,
            d.blocks.len() + c,
            #[trigger] list[c],
        ) by {
            if c < n - 1 {
                assert(children.take(n - 1)[c] == list[c]);
                lemma_child_stays(sc, before.0, r, d.blocks.len() + c, list[c]);
            }
        }
    }
}

pub proof fn lemma_edge_ports_keep(sc: Scene<'_>, d: Drawing, list: Seq<usize>, top: Iu, n: int)
    ensures
        keeps_blocks(edge_ports(sc, d, list, top, n).0, d),
        edge_ports(sc, d, list, top, n).0.blocks == d.blocks,
    decreases n,
{
    if 0 < n <= list.len() {
        lemma_edge_ports_keep(sc, d, list, top, n - 1);
        let before = edge_ports(sc, d, list, top, n - 1).0;
        lemma_blocks_trans(d, before, edge_ports(sc, d, list, top, n).0);
    }
}

pub proof fn lemma_fallback_keeps(sc: Scene<'_>, d: Drawing)
    ensures
        keeps_blocks(fallback_ports(sc, d), d),
        fallback_ports(sc, d).blocks == d.blocks,
{
    let list = unanchored(sc, d.anchored, sc.model.nets@.len() as int);
    let top = sc.cfg.spec_snap(sc.model.content_box.y1 + 25400);
    lemma_edge_ports_keep(sc, d, list, top, list.len() as int);
}

/// Every child sheet has its block on its parent, with a pin for each of its ports, and from every
/// pin a stub runs to a label with the name of the pin's net: a local one, which joins the net on
/// the sheet, or a hierarchical one, which hands it on to the parent.
pub proof fn law_blocks_are_joined(sc: Scene<'_>, d: Drawing)
    ensures
        children_joined(
            sc,
            fallback_ports(sc, all_blocks_drawn(sc, d)),
            d.blocks.len() as int,
            sc.plan.sheets@[sc.model.sheet as int].children@,
        ),
{
    let children = sc.plan.sheets@[sc.model.sheet as int].children@;
    lemma_blocks_joined(sc, d, children, block_origin(sc, d), children.len() as int);
    assert(children.take(children.len() as int) =~= children);
    let b = all_blocks_drawn(sc, d);
    let r = fallback_ports(sc, b);
    lemma_fallback_keeps(sc, b);
    assert forall|c: int| 0 <= c < children.len() implies child_joined(
        sc,
        r,
        d.blocks.len() + c,
        #[trigger] children[c],
    ) by {
        lemma_child_stays(sc, b, r, d.blocks.len() + c, children[c]);
    }
}

} // verus!
