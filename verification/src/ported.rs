//! Every port of a sheet has its hierarchical label, and every pin without a net its mark.

use vstd::prelude::*;
use crate::align::align_items;
use crate::blocks::{
    all_blocks_drawn, block_drawn, block_origin, block_size, blocks_drawn, edge_ports,
    fallback_ports, ports_on, side_drawn, unanchored,
};
use crate::canvas::{lists, Drawing, Scene};
use crate::childpins::{lemma_blocks_joined, lemma_edge_ports_keep, lemma_fallback_keeps};
use crate::contacts::unaligned;
use crate::labels::signals_routed;
use crate::linked::ports_noted;
use crate::model::DesignModel;
use crate::nets::on_root;
use crate::pins::{free_sites, geom_of, pad_position, pin_sites, site_taken, sites_of, PinSite};
use crate::place::{holds_pad, net_of_pad, pin_net, PlacedComp, SheetNet};
use crate::powered::lemma_supply_keeps;
use crate::registry::{LabelBox, RegPin};
use crate::route::{power_routed, sheet_routed, start_drawing, unconnected};
use crate::served::lemma_signals_keep;
use crate::sheets::SheetPort;
use crate::slid::{lemma_aligning_settles, lemma_flag_rows_keep, lists_fit};
use crate::supply::nets_supplied;
use crate::units::{sat, Iu, Point};
use crate::zones::{flag_order, flag_origin};

verus! {

// ---------------------------------------------------------------- ports

/// A hierarchical label of the drawing names the net.
pub open spec fn port_shown(d: Drawing, net: Seq<char>) -> bool {
    exists|i: int| 0 <= i < d.hier_labels.len() && (#[trigger] d.hier_labels[i]).net@ == net
}

proof fn lemma_wired_notes(sc: Scene<'_>, d: Drawing, undriven: Seq<String>)
    requires
        ports_noted(d),
    ensures
        ports_noted(power_routed(sc, signals_routed(sc, d), undriven).0),
{
    let d1 = signals_routed(sc, d);
    lemma_signals_keep(sc, d);
    lemma_supply_keeps(sc, d1, undriven, sc.model.nets@.len() as int);
    let s = nets_supplied(sc, d1, undriven, sc.model.nets@.len() as int);
    let o = flag_origin(sc, s.0);
    let order = flag_order(sc.model.nets@, s.1);
    lemma_flag_rows_keep(sc, s.0, s.1, order, o.x, o.y, order.len() as int);
}

proof fn lemma_side_notes(
    sc: Scene<'_>,
    d: Drawing,
    ports: Seq<SheetPort>,
    edge: Iu,
    top: Iu,
    left: bool,
    n: int,
)
    requires
        ports_noted(d),
    ensures
        ports_noted(side_drawn(sc, d, ports, edge, top, left, n).0),
    decreases n,
{
    if 0 < n <= ports.len() {
        lemma_side_notes(sc, d, ports, edge, top, left, n - 1);
    }
}

proof fn lemma_blocks_note(sc: Scene<'_>, d: Drawing, children: Seq<usize>, o: Point, n: int)
    requires
        ports_noted(d),
    ensures
        ports_noted(blocks_drawn(sc, d, children, o, n).0),
    decreases n,
{
    if 0 < n <= children.len() {
        lemma_blocks_note(sc, d, children, o, n - 1);
        let before = blocks_drawn(sc, d, children, o, n - 1).0;
        let after = blocks_drawn(sc, d, children, o, n).0;
        let at = after.blocks.last().at;
        let child = children[n - 1] as int;
        let ports = sc.plan.sheets@[child].ports@;
        let l = ports_on(ports, true, ports.len() as int);
        let r = ports_on(ports, false, ports.len() as int);
        lemma_side_notes(sc, before, l, at.x, at.y, true, l.len() as int);
        let a = side_drawn(sc, before, l, at.x, at.y, true, l.len() as int).0;
        let right = sat(at.x + block_size(sc, child).x);
        lemma_side_notes(sc, a, r, right, at.y, false, r.len() as int);
        assert(after == block_drawn(sc, before, child, at));
    }
}

proof fn lemma_unanchored(sc: Scene<'_>, anchored: Seq<String>, n: int, i: int)
    requires
        0 <= i < n <= sc.model.nets@.len(),
        sc.model.nets@[i].port is Some,
        !lists(anchored, sc.model.nets@[i].name@),
    ensures
        unanchored(sc, anchored, n).contains(i as usize),
    decreases n,
{
    assert(sc.model.nets.len() == sc.model.nets@.len());
    let r = unanchored(sc, anchored, n);
    if i < n - 1 {
        lemma_unanchored(sc, anchored, n - 1, i);
        let before = unanchored(sc, anchored, n - 1);
        let k = choose|k: int| 0 <= k < before.len() && before[k] == i as usize;
        assert(r[k] == i as usize);
    } else {
        assert(r[r.len() - 1] == i as usize);
    }
}

proof fn lemma_edge_shows(sc: Scene<'_>, d: Drawing, list: Seq<usize>, top: Iu, n: int, k: int)
    requires
        0 <= k < n <= list.len(),
    ensures
        port_shown(edge_ports(sc, d, list, top, n).0, sc.model.nets@[list[k] as int].name@),
    decreases n,
{
    let before = edge_ports(sc, d, list, top, n - 1).0;
    let after = edge_ports(sc, d, list, top, n).0;
    if k < n - 1 {
        lemma_edge_shows(sc, d, list, top, n - 1, k);
        let name = sc.model.nets@[list[k] as int].name@;
        let i = choose|i: int|
            0 <= i < before.hier_labels.len() && (#[trigger] before.hier_labels[i]).net@ == name;
        assert(after.hier_labels[i] == before.hier_labels[i]);
    } else {
        assert(after.hier_labels[before.hier_labels.len() as int].net@
            == sc.model.nets@[list[k] as int].name@);
    }
}

/// On every sheet but the root, each net that enters from the parent has a hierarchical label with
/// its name.
pub proof fn law_every_port_has_its_label(
    sc: Scene<'_>,
    pins: Seq<RegPin>,
    texts: Seq<LabelBox>,
    undriven: Seq<String>,
    i: int,
)
    requires
        !on_root(sc),
        0 <= i < sc.model.nets@.len(),
        sc.model.nets@[i].port is Some,
        ({
            let u = unaligned(sc, start_drawing(pins, texts), undriven);
            lists_fit(u) && align_items(sc, u).len() <= usize::MAX
        }),
    ensures
        port_shown(
            sheet_routed(sc, start_drawing(pins, texts), undriven),
            sc.model.nets@[i].name@,
        ),
{
    let d = start_drawing(pins, texts);
    let name = sc.model.nets@[i].name@;
    let q = Drawing {
        no_connects: unconnected(sc),
        ..power_routed(sc, signals_routed(sc, d), undriven).0
    };
    lemma_wired_notes(sc, d, undriven);
    assert(ports_noted(q));
    let children = sc.plan.sheets@[sc.model.sheet as int].children@;
    lemma_blocks_note(sc, q, children, block_origin(sc, q), children.len() as int);
    let b = all_blocks_drawn(sc, q);
    let u = fallback_ports(sc, b);
    let list = unanchored(sc, b.anchored, sc.model.nets@.len() as int);
    let top = sc.cfg.spec_snap(sc.model.content_box.y1 + 25400);
    if lists(b.anchored, name) {
        let k = choose|k: int| 0 <= k < b.anchored.len() && (#[trigger] b.anchored[k])@ == name;
        lemma_edge_ports_keep(sc, b, list, top, list.len() as int);
        let e = edge_ports(sc, b, list, top, list.len() as int).0;
        assert(ports_noted(b));
        assert(b.hier_labels[k].net@ == name);
        assert(e.hier_labels[k] == b.hier_labels[k]);
        assert(u == e);
    } else {
        lemma_unanchored(sc, b.anchored, sc.model.nets@.len() as int, i);
        let k = choose|k: int| 0 <= k < list.len() && list[k] == i as usize;
        assert(sc.model.nets.len() == sc.model.nets@.len());
        assert(list[k] as int == i);
        lemma_edge_shows(sc, b, list, top, list.len() as int, k);
    }
    assert(port_shown(u, name));
    let j = choose|j: int|
        0 <= j < u.hier_labels.len() && (#[trigger] u.hier_labels[j]).net@ == name;
    lemma_aligning_settles(sc, u);
    let f = sheet_routed(sc, d, undriven);
    assert(f.hier_labels[j].net@ == name);
}

// ---------------------------------------------------------------- pins without a net

/// A drawn pin of the placed component, at the point.
pub open spec fn pin_stands(design: DesignModel, placed: Seq<PlacedComp>, pi: int, k: int, at: Point) -> bool {
    let pins = geom_of(design, placed[pi]).pins@;
    &&& 0 <= pi < placed.len()
    &&& 0 <= k < pins.len()
    &&& !pins[k].hidden
    &&& pad_position(design, placed[pi], pins[k].number@) == Some(at)
}

/// No net of the sheet ends at the pad of the placed component.
pub open spec fn on_no_net(nets: Seq<SheetNet>, pi: int, pad: Seq<char>) -> bool {
    forall|n: int, e: int|
        0 <= n < nets.len() && 0 <= e < nets[n].endpoints@.len() ==> !((
        #[trigger] nets[n].endpoints@[e]).placed == pi && nets[n].endpoints@[e].pad@ == pad)
}

/// The site is a drawn pin among the first `n` of the first `pi` components and this one.
pub open spec fn site_of(
    design: DesignModel,
    placed: Seq<PlacedComp>,
    nets: Seq<SheetNet>,
    s: PinSite,
) -> bool {
    exists|k: int| #[trigger]
        pin_stands(design, placed, s.placed, k, s.at) && s.number == geom_of(
            design,
            placed[s.placed],
        ).pins@[k].number@ && s.net == pin_net(nets, s.placed, s.number)
}

pub open spec fn are_sites(
    design: DesignModel,
    placed: Seq<PlacedComp>,
    nets: Seq<SheetNet>,
    v: Seq<PinSite>,
) -> bool {
    forall|i: int| 0 <= i < v.len() ==> site_of(design, placed, nets, #[trigger] v[i])
}

proof fn lemma_sites_of(
    design: DesignModel,
    placed: Seq<PlacedComp>,
    nets: Seq<SheetNet>,
    pi: int,
    n: int,
    before: Seq<PinSite>,
)
    requires
        0 <= pi < placed.len(),
        are_sites(design, placed, nets, before),
        0 <= n <= geom_of(design, placed[pi]).pins@.len(),
    ensures
        are_sites(design, placed, nets, sites_of(design, placed, nets, pi, n, before)),
        before.is_prefix_of(sites_of(design, placed, nets, pi, n, before)),
        forall|k: int, at: Point|
            0 <= k < n && #[trigger] pin_stands(design, placed, pi, k, at) ==> site_taken(
                sites_of(design, placed, nets, pi, n, before),
                pi,
                at,
            ),
    decreases n,
{
    if n > 0 {
        lemma_sites_of(design, placed, nets, pi, n - 1, before);
        let list = sites_of(design, placed, nets, pi, n - 1, before);
        let r = sites_of(design, placed, nets, pi, n, before);
        let pin = geom_of(design, placed[pi]).pins@[n - 1];
        if let Some(at) = pad_position(design, placed[pi], pin.number@) {
            if !pin.hidden {
                assert(pin_stands(design, placed, pi, n - 1, at));
            }
        }
        assert forall|i: int| 0 <= i < r.len() implies site_of(
            design,
            placed,
            nets,
            #[trigger] r[i],
        ) by {
            if i < list.len() {
                assert(r[i] == list[i]);
                assert(site_of(design, placed, nets, list[i]));
            } else {
                assert(pin_stands(design, placed, r[i].placed, n - 1, r[i].at));
            }
        }
        assert forall|k: int, at: Point|
            0 <= k < n && #[trigger] pin_stands(design, placed, pi, k, at) implies site_taken(
            r,
            pi,
            at,
        ) by {
            if k < n - 1 || site_taken(list, pi, at) {
                assert(site_taken(list, pi, at));
                let i = choose|i: int|
                    0 <= i < list.len() && (#[trigger] list[i]).placed == pi && list[i].at == at;
                assert(r[i] == list[i]);
            } else {
                assert(r[list.len() as int].at == at);
            }
        }
    }
}

proof fn lemma_pin_sites(design: DesignModel, placed: Seq<PlacedComp>, nets: Seq<SheetNet>, n: int)
    requires
        0 <= n <= placed.len(),
    ensures
        are_sites(design, placed, nets, pin_sites(design, placed, nets, n)),
        forall|pi: int, k: int, at: Point|
            0 <= pi < n && #[trigger] pin_stands(design, placed, pi, k, at) ==> site_taken(
                pin_sites(design, placed, nets, n),
                pi,
                at,
            ),
    decreases n,
{
    if n > 0 {
        lemma_pin_sites(design, placed, nets, n - 1);
        let before = pin_sites(design, placed, nets, n - 1);
        let count = geom_of(design, placed[n - 1]).pins@.len() as int;
        lemma_sites_of(design, placed, nets, n - 1, count, before);
        let r = pin_sites(design, placed, nets, n);
        assert forall|pi: int, k: int, at: Point|
            0 <= pi < n && #[trigger] pin_stands(design, placed, pi, k, at) implies site_taken(
            r,
            pi,
            at,
        ) by {
            if pi < n - 1 {
                assert(site_taken(before, pi, at));
                let i = choose|i: int|
                    0 <= i < before.len() && (#[trigger] before[i]).placed == pi && before[i].at
                        == at;
                assert(r[i] == before[i]);
            }
        }
    }
}

proof fn lemma_free_sites(sites: Seq<PinSite>, n: int)
    requires
        0 <= n <= sites.len(),
    ensures
        forall|i: int|
            0 <= i < n && (#[trigger] sites[i]).net is None ==> free_sites(sites, n).contains(
                sites[i].at,
            ),
        forall|k: int|
            0 <= k < free_sites(sites, n).len() ==> free_site(
                sites,
                #[trigger] free_sites(sites, n)[k],
            ),
    decreases n,
{
    if n > 0 {
        lemma_free_sites(sites, n - 1);
        let before = free_sites(sites, n - 1);
        let r = free_sites(sites, n);
        assert forall|i: int| 0 <= i < n && (#[trigger] sites[i]).net is None implies r.contains(
            sites[i].at,
        ) by {
            if i < n - 1 {
                assert(before.contains(sites[i].at));
                let k = choose|k: int| 0 <= k < before.len() && before[k] == sites[i].at;
                assert(r[k] == sites[i].at);
            } else {
                assert(r[r.len() - 1] == sites[i].at);
            }
        }
        assert forall|k: int| 0 <= k < r.len() implies free_site(sites, #[trigger] r[k]) by {
            if k < before.len() {
                assert(r[k] == before[k]);
                assert(free_site(sites, before[k]));
            } else {
                assert(sites[n - 1].at == r[k]);
            }
        }
    }
}

/// A site without a net lies at the point.
pub open spec fn free_site(sites: Seq<PinSite>, at: Point) -> bool {
    exists|i: int| 0 <= i < sites.len() && (#[trigger] sites[i]).net is None && sites[i].at == at
}

proof fn lemma_net_of_pad(nets: Seq<SheetNet>, pi: int, pad: Seq<char>, n: int)
    requires
        0 <= n <= nets.len(),
    ensures
        net_of_pad(nets, pi, pad, n) is None <==> forall|i: int|
            0 <= i < n ==> !holds_pad(#[trigger] nets[i], pi, pad),
    decreases n,
{
    if n > 0 {
        lemma_net_of_pad(nets, pi, pad, n - 1);
    }
}

proof fn lemma_pin_net(nets: Seq<SheetNet>, pi: int, pad: Seq<char>)
    ensures
        (pin_net(nets, pi, pad) is None) == on_no_net(nets, pi, pad),
{
    lemma_net_of_pad(nets, pi, pad, nets.len() as int);
    if pin_net(nets, pi, pad) is None {
        assert forall|n: int, e: int|
            0 <= n < nets.len() && 0 <= e < nets[n].endpoints@.len() implies !((
        #[trigger] nets[n].endpoints@[e]).placed == pi && nets[n].endpoints@[e].pad@ == pad) by {
            assert(!holds_pad(nets[n], pi, pad));
        }
    } else if on_no_net(nets, pi, pad) {
        let i = choose|i: int| 0 <= i < nets.len() && holds_pad(#[trigger] nets[i], pi, pad);
        let e = choose|e: int|
            0 <= e < nets[i].endpoints@.len() && (#[trigger] nets[i].endpoints@[e]).placed == pi
                && nets[i].endpoints@[e].pad@ == pad;
        assert(nets[i].endpoints@[e].placed == pi);
    }
}

/// A pin is drawn at the point, and no net of the sheet ends at its pad.
pub open spec fn loose_at(sc: Scene<'_>, at: Point) -> bool {
    exists|pi: int, k: int| #[trigger]
        pin_stands(*sc.design, sc.model.placed@, pi, k, at) && on_no_net(
            sc.model.nets@,
            pi,
            geom_of(*sc.design, sc.model.placed@[pi]).pins@[k].number@,
        )
}

/// Of the pins that the component has drawn at the point, none is on a net.
pub open spec fn all_loose_at(sc: Scene<'_>, pi: int, at: Point) -> bool {
    forall|k: int| #[trigger]
        pin_stands(*sc.design, sc.model.placed@, pi, k, at) ==> on_no_net(
            sc.model.nets@,
            pi,
            geom_of(*sc.design, sc.model.placed@[pi]).pins@[k].number@,
        )
}

proof fn lemma_marks(sc: Scene<'_>)
    ensures
        forall|i: int|
            0 <= i < unconnected(sc).len() ==> loose_at(sc, #[trigger] unconnected(sc)[i]),
        forall|pi: int, k: int, at: Point| #[trigger]
            pin_stands(*sc.design, sc.model.placed@, pi, k, at) && all_loose_at(sc, pi, at)
                ==> unconnected(sc).contains(at),
{
    let design = *sc.design;
    let placed = sc.model.placed@;
    let nets = sc.model.nets@;
    let sites = pin_sites(design, placed, nets, placed.len() as int);
    let r = unconnected(sc);
    lemma_pin_sites(design, placed, nets, placed.len() as int);
    lemma_free_sites(sites, sites.len() as int);
    assert forall|i: int| 0 <= i < r.len() implies loose_at(sc, #[trigger] r[i]) by {
        assert(free_site(sites, r[i]));
        let j = choose|j: int|
            0 <= j < sites.len() && (#[trigger] sites[j]).net is None && sites[j].at == r[i];
        let s = sites[j];
        assert(site_of(design, placed, nets, s));
        let k = choose|k: int| #[trigger]
            pin_stands(design, placed, s.placed, k, s.at) && s.number == geom_of(
                design,
                placed[s.placed],
            ).pins@[k].number@ && s.net == pin_net(nets, s.placed, s.number);
        lemma_pin_net(nets, s.placed, s.number);
        assert(pin_stands(*sc.design, sc.model.placed@, s.placed, k, r[i]));
    }
    assert forall|pi: int, k: int, at: Point| #[trigger]
        pin_stands(*sc.design, sc.model.placed@, pi, k, at) && all_loose_at(
            sc,
            pi,
            at,
        ) implies r.contains(at) by {
        assert(site_taken(sites, pi, at));
        let j = choose|j: int|
            0 <= j < sites.len() && (#[trigger] sites[j]).placed == pi && sites[j].at == at;
        let s = sites[j];
        assert(site_of(design, placed, nets, s));
        let m = choose|m: int| #[trigger]
            pin_stands(design, placed, s.placed, m, s.at) && s.number == geom_of(
                design,
                placed[s.placed],
            ).pins@[m].number@ && s.net == pin_net(nets, s.placed, s.number);
        assert(pin_stands(*sc.design, sc.model.placed@, pi, m, at));
        lemma_pin_net(nets, pi, s.number);
        assert(sites[j].net is None);
    }
}

/// A routed sheet holds a mark where a part has drawn pins of which none is on a net, and every
/// mark stands at a pin that is on no net.
pub proof fn law_loose_pins_are_marked(
    sc: Scene<'_>,
    pins: Seq<RegPin>,
    texts: Seq<LabelBox>,
    undriven: Seq<String>,
)
    requires
        ({
            let u = unaligned(sc, start_drawing(pins, texts), undriven);
            lists_fit(u) && align_items(sc, u).len() <= usize::MAX
        }),
    ensures
        ({
            let marks = sheet_routed(sc, start_drawing(pins, texts), undriven).no_connects;
            &&& forall|i: int| 0 <= i < marks.len() ==> loose_at(sc, #[trigger] marks[i])
            &&& forall|pi: int, k: int, at: Point| #[trigger]
                pin_stands(*sc.design, sc.model.placed@, pi, k, at) && all_loose_at(sc, pi, at)
                    ==> marks.contains(at)
        }),
{
    let d = start_drawing(pins, texts);
    let q = Drawing {
        no_connects: unconnected(sc),
        ..power_routed(sc, signals_routed(sc, d), undriven).0
    };
    let children = sc.plan.sheets@[sc.model.sheet as int].children@;
    lemma_blocks_joined(sc, q, children, block_origin(sc, q), children.len() as int);
    let b = all_blocks_drawn(sc, q);
    lemma_fallback_keeps(sc, b);
    let u = fallback_ports(sc, b);
    lemma_aligning_settles(sc, u);
    assert(sheet_routed(sc, d, undriven).no_connects == unconnected(sc));
    lemma_marks(sc);
}

} // verus!
