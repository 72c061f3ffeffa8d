//! The pins of placed components: where they end, which net they are on, which are free.

use vstd::prelude::*;
use crate::canvas::{Endpoint, Scene};
use crate::config::SchConfig;
use crate::geometry::{PinGeom, SymbolGeom};
use crate::model::{Comp, DesignModel};
use crate::place::{find_pin_net, pin_net, placed_wf, PlacedComp, SheetNet};
use crate::registry::RegPin;
use crate::text::{append_chars, chars_of, decimal, text_of, to_decimal, Text};
use crate::units::{near, spec_near_point, Point};

verus! {

/// The symbol of a placed component.
pub open spec fn geom_of(design: DesignModel, p: PlacedComp) -> SymbolGeom {
    design.comps@[p.comp as int].geom
}

/// Where a pad of a placed component lands.
pub open spec fn pad_position(design: DesignModel, p: PlacedComp, pad: Seq<char>) -> Option<Point> {
    geom_of(design, p).spec_pin_position(pad, p.at, p.rotation as int, p.mirror)
}

/// Which way a pad of a placed component points.
pub open spec fn pad_outward(design: DesignModel, p: PlacedComp, pad: Seq<char>) -> Option<Point> {
    geom_of(design, p).spec_pin_outward(pad, p.rotation as int, p.mirror)
}

pub fn pad_at(design: &DesignModel, p: &PlacedComp, pad: &String) -> (r: Option<Point>)
    requires
        p.comp < design.comps@.len(),
    ensures
        r == pad_position(*design, *p, pad@),
{
    design.comps[p.comp].geom.pin_position(pad, p.at, p.rotation, p.mirror)
}

pub fn pad_dir(design: &DesignModel, p: &PlacedComp, pad: &String) -> (r: Option<Point>)
    requires
        p.comp < design.comps@.len(),
    ensures
        r == pad_outward(*design, *p, pad@),
{
    design.comps[p.comp].geom.pin_outward(pad, p.rotation, p.mirror)
}

/// Is the point among the listed ones?
pub open spec fn seen(points: Seq<Point>, p: Point) -> bool {
    exists|i: int| 0 <= i < points.len() && #[trigger] points[i] == p
}

pub fn is_seen(points: &Vec<Point>, p: Point) -> (r: bool)
    ensures
        r == seen(points@, p),
{
    let mut i: usize = 0;
    while i < points.len()
        invariant
            i <= points.len(),
            forall|k: int| 0 <= k < i ==> #[trigger] points@[k] != p,
        decreases points.len() - i,
    {
        if points[i] == p {
            return true;
        }
        i = i + 1;
    }
    false
}

// ---------------------------------------------------------------- the endpoints of a net

/// Position and direction of the endpoint, where its pin exists and is drawn.
pub open spec fn drawn_pad(design: DesignModel, p: PlacedComp, pad: Seq<char>) -> Option<(Point, Point)> {
    match geom_of(design, p).spec_pin(pad) {
        Some(i) => if geom_of(design, p).pins@[i].hidden {
            None
        } else {
            Some((pad_position(design, p, pad)->0, pad_outward(design, p, pad)->0))
        },
        None => None,
    }
}

pub fn drawn_pad_at(design: &DesignModel, p: &PlacedComp, pad: &String) -> (r: Option<(Point, Point)>)
    requires
        p.comp < design.comps@.len(),
    ensures
        r == drawn_pad(*design, *p, pad@),
{
    let geom: &SymbolGeom = &design.comps[p.comp].geom;
    match geom.pin_at(pad) {
        Some(i) => {
            if geom.pins[i].hidden {
                return None;
            }
            match (pad_at(design, p, pad), pad_dir(design, p, pad)) {
                (Some(pos), Some(dir)) => Some((pos, dir)),
                _ => None,
            }
        },
        None => None,
    }
}

/// Is there an endpoint at this position already?
pub open spec fn has_endpoint(eps: Seq<Endpoint>, pos: Point) -> bool {
    exists|i: int| 0 <= i < eps.len() && (#[trigger] eps[i]).pos == pos
}

/// The endpoints that the first `n` pads of a net give, one for each position.
pub open spec fn endpoints_upto(sc: Scene<'_>, net: SheetNet, n: int) -> Seq<Endpoint>
    decreases n,
{
    if n <= 0 || n > net.endpoints@.len() {
        Seq::empty()
    } else {
        let before = endpoints_upto(sc, net, n - 1);
        let e = net.endpoints@[n - 1];
        match drawn_pad(*sc.design, sc.model.placed@[e.placed as int], e.pad@) {
            Some((pos, dir)) => if has_endpoint(before, pos) {
                before
            } else {
                before.push(Endpoint { placed: e.placed, pad: e.pad, pos, dir })
            },
            None => before,
        }
    }
}

/// The endpoints of a net, one for each position.
pub open spec fn endpoints_of(sc: Scene<'_>, net: SheetNet) -> Seq<Endpoint> {
    endpoints_upto(sc, net, net.endpoints@.len() as int)
}

/// Every endpoint belongs to a placed component.
pub open spec fn endpoints_wf(sc: Scene<'_>, eps: Seq<Endpoint>) -> bool {
    forall|i: int| 0 <= i < eps.len() ==> (#[trigger] eps[i]).placed < sc.model.placed@.len()
}

/// The endpoints of a net, one for each position.
pub fn net_endpoints(sc: &Scene, sn: usize) -> (r: Vec<Endpoint>)
    requires
        sc.wf(),
        sn < sc.model.nets@.len(),
    ensures
        r@ == endpoints_of(*sc, sc.model.nets@[sn as int]),
        endpoints_wf(*sc, r@),
{
    let net: &SheetNet = &sc.model.nets[sn];
    let mut out: Vec<Endpoint> = Vec::new();
    let mut n: usize = 0;
    while n < net.endpoints.len()
        invariant
            n <= net.endpoints.len(),
            sc.wf(),
            sn < sc.model.nets@.len(),
            *net == sc.model.nets@[sn as int],
            out@ == endpoints_upto(*sc, *net, n as int),
            endpoints_wf(*sc, out@),
        decreases net.endpoints.len() - n,
    {
        let placed: usize = net.endpoints[n].placed;
        proof {
            assert(sc.model.nets@[sn as int].endpoints@[n as int].placed < sc.model.placed@.len());
        }
        let pad: &String = &net.endpoints[n].pad;
        match drawn_pad_at(sc.design, &sc.model.placed[placed], pad) {
            Some((pos, dir)) => {
                let mut found: bool = false;
                let mut i: usize = 0;
                while i < out.len()
                    invariant
                        i <= out.len(),
                        found == exists|k: int| 0 <= k < i && (#[trigger] out@[k]).pos == pos,
                    decreases out.len() - i,
                {
                    if out[i].pos == pos {
                        found = true;
                    }
                    i = i + 1;
                }
                if !found {
                    out.push(Endpoint { placed, pad: pad.clone(), pos, dir });
                }
            },
            None => {},
        }
        n = n + 1;
    }
    out
}

// ---------------------------------------------------------------- all pins of a sheet

/// A drawn pin of a placed component, with its net where it has one.
pub struct PinSite {
    pub at: Point,
    pub placed: int,
    pub number: Seq<char>,
    pub net: Option<int>,
}

/// Does the list hold a pin of this component at the position?
pub open spec fn site_taken(sites: Seq<PinSite>, placed: int, at: Point) -> bool {
    exists|i: int|
        0 <= i < sites.len() && (#[trigger] sites[i]).placed == placed && sites[i].at == at
}

/// The drawn pins among the first `n` pins of a placed component, one for each position, added
/// to `before`.
pub open spec fn sites_of(
    design: DesignModel,
    placed: Seq<PlacedComp>,
    nets: Seq<SheetNet>,
    pi: int,
    n: int,
    before: Seq<PinSite>,
) -> Seq<PinSite>
    decreases n,
{
    let pins = geom_of(design, placed[pi]).pins@;
    if n <= 0 || n > pins.len() {
        before
    } else {
        let list = sites_of(design, placed, nets, pi, n - 1, before);
        let pin = pins[n - 1];
        match pad_position(design, placed[pi], pin.number@) {
            Some(at) => if pin.hidden || site_taken(list, pi, at) {
                list
            } else {
                list.push(
                    PinSite {
                        at,
                        placed: pi,
                        number: pin.number@,
                        net: pin_net(nets, pi, pin.number@),
                    },
                )
            },
            None => list,
        }
    }
}

/// The drawn pins of the first `n` placed components, one for each position.
pub open spec fn pin_sites(
    design: DesignModel,
    placed: Seq<PlacedComp>,
    nets: Seq<SheetNet>,
    n: int,
) -> Seq<PinSite>
    decreases n,
{
    if n <= 0 || n > placed.len() {
        Seq::empty()
    } else {
        sites_of(
            design,
            placed,
            nets,
            n - 1,
            geom_of(design, placed[n - 1]).pins@.len() as int,
            pin_sites(design, placed, nets, n - 1),
        )
    }
}

/// The name that a pin is registered under: its net, or a name of its own where it has none.
pub open spec fn site_name(nets: Seq<SheetNet>, s: PinSite) -> Seq<char> {
    match s.net {
        Some(n) => nets[n].name@,
        None => "~nc~"@ + decimal(s.placed as nat) + "."@ + s.number,
    }
}

/// The registered pins are the pin sites, each under its name.
pub open spec fn pins_match(pins: Seq<RegPin>, sites: Seq<PinSite>, nets: Seq<SheetNet>) -> bool {
    pins.len() == sites.len() && forall|i: int|
        0 <= i < pins.len() ==> (#[trigger] pins[i]).at == sites[i].at && pins[i].net@ == site_name(
            nets,
            sites[i],
        )
}

/// The free pins among the first `n` sites.
pub open spec fn free_sites(sites: Seq<PinSite>, n: int) -> Seq<Point>
    decreases n,
{
    if n <= 0 || n > sites.len() {
        Seq::empty()
    } else if sites[n - 1].net is None {
        free_sites(sites, n - 1).push(sites[n - 1].at)
    } else {
        free_sites(sites, n - 1)
    }
}

fn own_name(pi: usize, number: &String) -> (s: String)
    ensures
        s@ == "~nc~"@ + decimal(pi as nat) + "."@ + number@,
{
    let mut v: Vec<char> = chars_of("~nc~");
    append_chars(&mut v, &to_decimal(pi as u128));
    append_chars(&mut v, &chars_of("."));
    append_chars(&mut v, &chars_of(number.as_str()));
    text_of(&v)
}

/// Register the drawn pins of a sheet, and list those without a net.
pub fn survey_pins(sc: &Scene) -> (r: (Vec<RegPin>, Vec<Point>))
    requires
        sc.wf(),
    ensures
        ({
            let sites = pin_sites(
                *sc.design,
                sc.model.placed@,
                sc.model.nets@,
                sc.model.placed@.len() as int,
            );
            pins_match(r.0@, sites, sc.model.nets@) && r.1@ == free_sites(
                sites,
                sites.len() as int,
            )
        }),
{
    let placed: &[PlacedComp] = &sc.model.placed;
    let nets: &[SheetNet] = &sc.model.nets;
    let mut pins: Vec<RegPin> = Vec::new();
    let mut free: Vec<Point> = Vec::new();
    let ghost mut sites: Seq<PinSite> = Seq::empty();
    let mut pi: usize = 0;
    while pi < placed.len()
        invariant
            pi <= placed.len(),
            sc.wf(),
            placed@ == sc.model.placed@,
            nets@ == sc.model.nets@,
            sites == pin_sites(*sc.design, placed@, nets@, pi as int),
            forall|i: int| 0 <= i < sites.len() ==> (#[trigger] sites[i]).placed < pi,
            pins_match(pins@, sites, nets@),
            free@ == free_sites(sites, sites.len() as int),
        decreases placed.len() - pi,
    {
        let p: &PlacedComp = &placed[pi];
        let geom: &SymbolGeom = &sc.design.comps[p.comp].geom;
        let ghost before = sites;
        let mut taken: Vec<Point> = Vec::new();
        let mut n: usize = 0;
        while n < geom.pins.len()
            invariant
                n <= geom.pins.len(),
                pi < placed.len(),
                sc.wf(),
                placed@ == sc.model.placed@,
                nets@ == sc.model.nets@,
                *p == placed@[pi as int],
                *geom == geom_of(*sc.design, *p),
                sites == sites_of(*sc.design, placed@, nets@, pi as int, n as int, before),
                forall|i: int| 0 <= i < sites.len() ==> (#[trigger] sites[i]).placed <= pi,
                forall|at: Point| #[trigger] seen(taken@, at) <==> site_taken(sites, pi as int, at),
                pins_match(pins@, sites, nets@),
                free@ == free_sites(sites, sites.len() as int),
            decreases geom.pins.len() - n,
        {
            let pin: &PinGeom = &geom.pins[n];
            match pad_at(sc.design, p, &pin.number.show()) {
                Some(at) => {
                    if !pin.hidden && !is_seen(&taken, at) {
                        let ghost old_taken = taken@;
                        let ghost old_sites = sites;
                        let found: Option<usize> = find_pin_net(nets, pi, &pin.number.show());
                        let name: String = match found {
                            Some(sn) => nets[sn].name.clone(),
                            None => own_name(pi, &pin.number.show()),
                        };
                        if found.is_none() {
                            free.push(at);
                        }
                        pins.push(RegPin { at, net: Text::of(name.as_str()) });
                        taken.push(at);
                        proof {
                            let s = PinSite {
                                at,
                                placed: pi as int,
                                number: pin.number@,
                                net: pin_net(nets@, pi as int, pin.number@),
                            };
                            sites = sites.push(s);
                            assert(sites.drop_last() =~= old_sites);
                            lemma_free_prefix(old_sites, sites, old_sites.len() as int);
                            assert forall|q: Point| #[trigger]
                                seen(taken@, q) <==> site_taken(sites, pi as int, q) by {
                                if seen(taken@, q) {
                                    if q == at {
                                        assert(sites[old_sites.len() as int].at == at);
                                    } else {
                                        let k = choose|k: int|
                                            0 <= k < taken@.len() && #[trigger] taken@[k] == q;
                                        assert(old_taken[k] == q);
                                        assert(seen(old_taken, q));
                                        let j = choose|j: int|
                                            0 <= j < old_sites.len() && (
                                            #[trigger] old_sites[j]).placed == pi
                                                && old_sites[j].at == q;
                                        assert(sites[j] == old_sites[j]);
                                    }
                                }
                                if site_taken(sites, pi as int, q) {
                                    let j = choose|j: int|
                                        0 <= j < sites.len() && (#[trigger] sites[j]).placed == pi
                                            && sites[j].at == q;
                                    if j < old_sites.len() {
                                        assert(old_sites[j] == sites[j]);
                                        assert(site_taken(old_sites, pi as int, q));
                                        assert(seen(old_taken, q));
                                        let k = choose|k: int|
                                            0 <= k < old_taken.len() && #[trigger] old_taken[k]
                                                == q;
                                        assert(taken@[k] == q);
                                    } else {
                                        assert(taken@[old_taken.len() as int] == q);
                                    }
                                }
                            }
                        }
                    }
                },
                None => {},
            }
            n = n + 1;
        }
        pi = pi + 1;
    }
    (pins, free)
}

proof fn lemma_free_prefix(a: Seq<PinSite>, b: Seq<PinSite>, n: int)
    requires
        n <= a.len(),
        n <= b.len(),
        forall|i: int| 0 <= i < n ==> a[i] == b[i],
    ensures
        free_sites(a, n) == free_sites(b, n),
    decreases n,
{
    if n > 0 {
        lemma_free_prefix(a, b, n - 1);
    }
}

// ---------------------------------------------------------------- questions about components and nets

/// The first drawn pin of the component, at or after pin `i`, that ends near the point.
pub open spec fn pin_near(design: DesignModel, p: PlacedComp, at: Point, i: int) -> bool
    decreases geom_of(design, p).pins@.len() - i,
{
    let pins = geom_of(design, p).pins@;
    0 <= i < pins.len() && ((!pins[i].hidden && match pad_position(design, p, pins[i].number@) {
        Some(q) => spec_near_point(q, at),
        None => false,
    }) || pin_near(design, p, at, i + 1))
}

/// The first placed component, at or after `i`, with a drawn pin near the point.
pub open spec fn owner_of(
    design: DesignModel,
    placed: Seq<PlacedComp>,
    at: Point,
    i: int,
) -> Option<int>
    decreases placed.len() - i,
{
    if i < 0 || i >= placed.len() {
        None
    } else if pin_near(design, placed[i], at, 0) {
        Some(i)
    } else {
        owner_of(design, placed, at, i + 1)
    }
}

/// The placed component that has a drawn pin at the point.
pub fn comp_at_pin(design: &DesignModel, placed: &[PlacedComp], at: Point) -> (r: Option<usize>)
    requires
        placed_wf(*design, placed@),
    ensures
        match r {
            Some(i) => owner_of(*design, placed@, at, 0) == Some(i as int) && i < placed@.len(),
            None => owner_of(*design, placed@, at, 0) is None,
        },
{
    let mut i: usize = 0;
    while i < placed.len()
        invariant
            i <= placed.len(),
            placed_wf(*design, placed@),
            owner_of(*design, placed@, at, 0) == owner_of(*design, placed@, at, i as int),
        decreases placed.len() - i,
    {
        let p: &PlacedComp = &placed[i];
        let geom: &SymbolGeom = &design.comps[p.comp].geom;
        let mut n: usize = 0;
        while n < geom.pins.len()
            invariant
                n <= geom.pins.len(),
                i < placed.len(),
                placed_wf(*design, placed@),
                *p == placed@[i as int],
                *geom == geom_of(*design, *p),
                owner_of(*design, placed@, at, 0) == owner_of(*design, placed@, at, i as int),
                pin_near(*design, *p, at, 0) == pin_near(*design, *p, at, n as int),
            decreases geom.pins.len() - n,
        {
            if !geom.pins[n].hidden {
                match pad_at(design, p, &geom.pins[n].number.show()) {
                    Some(q) => {
                        if near(q, at) {
                            return Some(i);
                        }
                    },
                    None => {},
                }
            }
            n = n + 1;
        }
        i = i + 1;
    }
    None
}

/// A component with more visible pins than the configured number.
pub open spec fn spec_is_hub(cfg: SchConfig, comp: Comp) -> bool {
    comp.visible_pins > cfg.hub_pin_count_threshold
}

pub fn is_hub_comp(cfg: &SchConfig, design: &DesignModel, ci: usize) -> (r: bool)
    requires
        ci < design.comps@.len(),
    ensures
        r == spec_is_hub(*cfg, design.comps@[ci as int]),
{
    design.comps[ci].visible_pins > cfg.hub_pin_count_threshold
}

/// Two directions that point at each other along an axis.
pub open spec fn opposed(a: Point, b: Point) -> bool {
    (a.x != 0 && b.x != 0 && a.x != b.x) || (a.y != 0 && b.y != 0 && a.y != b.y)
}

/// A net that joins two pins of two components that face each other, and nothing else.
pub open spec fn is_pair_net(
    cfg: SchConfig,
    design: DesignModel,
    placed: Seq<PlacedComp>,
    net: SheetNet,
) -> bool {
    let a = net.endpoints@[0];
    let b = net.endpoints@[1];
    let pa = placed[a.placed as int];
    let pb = placed[b.placed as int];
    &&& net.endpoints@.len() == 2
    &&& net.port is None
    &&& !net.on_child_blocks
    &&& a.placed != b.placed
    &&& pa.group_root == pb.group_root || !(spec_is_hub(cfg, design.comps@[pa.comp as int])
        || spec_is_hub(cfg, design.comps@[pb.comp as int]))
    &&& match (pad_outward(design, pa, a.pad@), pad_outward(design, pb, b.pad@)) {
        (Some(da), Some(db)) => opposed(da, db),
        _ => false,
    }
}

pub fn is_pair_net_static(
    cfg: &SchConfig,
    design: &DesignModel,
    placed: &[PlacedComp],
    net: &SheetNet,
) -> (r: bool)
    requires
        placed_wf(*design, placed@),
        forall|e: int|
            0 <= e < net.endpoints@.len() ==> (#[trigger] net.endpoints@[e]).placed < placed@.len(),
    ensures
        r == is_pair_net(*cfg, *design, placed@, *net),
{
    if net.endpoints.len() != 2 || net.port.is_some() || net.on_child_blocks {
        return false;
    }
    let a: usize = net.endpoints[0].placed;
    let b: usize = net.endpoints[1].placed;
    if a == b {
        return false;
    }
    let pa: &PlacedComp = &placed[a];
    let pb: &PlacedComp = &placed[b];
    if pa.group_root != pb.group_root && (is_hub_comp(cfg, design, pa.comp) || is_hub_comp(
        cfg,
        design,
        pb.comp,
    )) {
        return false;
    }
    match (pad_dir(design, pa, &net.endpoints[0].pad), pad_dir(design, pb, &net.endpoints[1].pad)) {
        (Some(da), Some(db)) => (da.x != 0 && db.x != 0 && da.x != db.x) || (da.y != 0 && db.y != 0
            && da.y != db.y),
        _ => false,
    }
}

} // verus!
