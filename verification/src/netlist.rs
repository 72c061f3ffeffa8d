//! The design: components and nets, with what follows from how they are connected.

use vstd::prelude::*;
use crate::anchors::{below, order_pins, pins_in_order};
use crate::config::SchConfig;
use crate::extract::{
    are_comps, boxes_said, comp_order, convert_manual_position, converted, first_unsound, is_comp,
    is_fault, lib_id_of, order_components, read_comps, BuildError,
};
use crate::geometry::{PinGeom, SymbolGeom};
use crate::model::{Comp, DesignModel, ManualPosition, NetClass, NetModel, PadRef, Role};
use crate::order::{
    includes, indices, is_text_behind, lemma_sorted_items, list_includes, natural_compare,
    natural_order, sort_by, sorted_by, text_behind, upto,
};
use crate::roles::{classify_role, is_passive_like, spec_role, OnNets};
use crate::schematic::{
    dotted, dotted_path, pads, pads_of, Child, Instance, InstanceKind, Net, Schematic,
    SymbolPosition,
};
use crate::text::{boxed, 
    char_rows, chars_of, cut, find_char, has_at, holds_at, is_text, pieces, place_of_char,
    skip_chars, split_chars, text_of,
};
use crate::warning::Warning;

verus! {

// ---------------------------------------------------------------- what the nets see

/// What connectivity needs to know of a component.
pub struct PartView {
    pub key: Seq<char>,
    pub geom: SymbolGeom,
    pub visible: usize,
    pub boxed: bool,
}

pub open spec fn parts(comps: Seq<Comp>) -> Seq<PartView> {
    Seq::new(
        comps.len(),
        |i: int|
            PartView {
                key: comps[i].path_key@,
                geom: comps[i].geom,
                visible: comps[i].visible_pins,
                boxed: comps[i].synthesized,
            },
    )
}

/// What classification needs to know of a net.
pub struct WireView {
    pub class: NetClass,
    pub endpoints: Seq<PadRef>,
}

pub open spec fn wires(nets: Seq<NetModel>) -> Seq<WireView> {
    Seq::new(
        nets.len(),
        |i: int| WireView { class: nets[i].class, endpoints: nets[i].endpoints@ },
    )
}

/// The last of the first `n` components with this path.
pub open spec fn comp_at(ps: Seq<PartView>, key: Seq<char>, n: int) -> Option<int>
    decreases n,
{
    if n <= 0 || n > ps.len() {
        None
    } else if ps[n - 1].key == key {
        Some(n - 1)
    } else {
        comp_at(ps, key, n - 1)
    }
}

/// The component with this path.
pub fn find_comp(comps: &[Comp], key: &String) -> (r: Option<usize>)
    ensures
        match r {
            Some(k) => comp_at(parts(comps@), key@, comps@.len() as int) == Some(k as int) && k
                < comps@.len(),
            None => comp_at(parts(comps@), key@, comps@.len() as int) is None,
        },
{
    let ghost ps = parts(comps@);
    let mut n: usize = comps.len();
    while n > 0
        invariant
            n <= comps.len(),
            ps == parts(comps@),
            comp_at(ps, key@, comps@.len() as int) == comp_at(ps, key@, n as int),
        decreases n,
    {
        proof {
            assert(ps[n - 1].key == comps@[n - 1].path_key@);
        }
        if comps[n - 1].path_key.is(key.as_str()) {
            return Some(n - 1);
        }
        n = n - 1;
    }
    None
}

// ---------------------------------------------------------------- nets

pub open spec fn class_of(kind: Seq<char>) -> NetClass {
    if kind == "Power"@ {
        NetClass::Power
    } else if kind == "Ground"@ {
        NetClass::Ground
    } else {
        NetClass::Signal
    }
}

/// Those of the first `n` nets that connect: pins that are left open on purpose share a net that
/// does not.
pub open spec fn connecting(sch: Schematic, n: int) -> Seq<usize>
    decreases n,
{
    if n <= 0 || n > sch.nets@.len() {
        Seq::empty()
    } else if sch.nets@[n - 1].kind@ == "NotConnected"@ {
        connecting(sch, n - 1)
    } else {
        connecting(sch, n - 1).push((n - 1) as usize)
    }
}

pub open spec fn name_behind(sch: Schematic) -> spec_fn(usize, usize) -> bool {
    |a: usize, c: usize| text_behind(sch.nets@[a as int].name@, sch.nets@[c as int].name@)
}

/// The nets of the design, by name.
pub open spec fn net_order(sch: Schematic) -> Seq<usize> {
    sorted_by(connecting(sch, sch.nets@.len() as int), name_behind(sch))
}

/// The first `n` pads as endpoints of a component.
pub open spec fn pad_refs(ci: usize, pads: Seq<String>, n: int) -> Seq<PadRef>
    decreases n,
{
    if n <= 0 || n > pads.len() {
        Seq::empty()
    } else {
        pad_refs(ci, pads, n - 1).push(PadRef { comp: ci, pad: pads[n - 1] })
    }
}

/// The component that a port belongs to.
pub open spec fn owner_of_port(sch: Schematic, ps: Seq<PartView>, owner: Option<usize>) -> Option<int> {
    match owner {
        Some(o) => if o < sch.instances@.len() {
            comp_at(ps, dotted(sch.instances@[o as int].path@), ps.len() as int)
        } else {
            None
        },
        None => None,
    }
}

/// The endpoints of the first `n` ports of a net.
pub open spec fn endpoints_of(sch: Schematic, ps: Seq<PartView>, net: Net, n: int) -> Seq<PadRef>
    decreases n,
{
    if n <= 0 || n > net.ports@.len() {
        Seq::empty()
    } else {
        let before = endpoints_of(sch, ps, net, n - 1);
        let p = net.ports@[n - 1];
        match owner_of_port(sch, ps, p.owner) {
            Some(ci) => if p.port < sch.instances@.len() {
                let pd = pads(sch.instances@[p.port as int]);
                before + pad_refs(ci as usize, pd, pd.len() as int)
            } else {
                before
            },
            None => before,
        }
    }
}

/// Endpoint `a` comes behind endpoint `c`: by the path of the component, then by the pad.
pub open spec fn endpoint_behind(ps: Seq<PartView>, eps: Seq<PadRef>) -> spec_fn(usize, usize) -> bool {
    |a: usize, c: usize|
        {
            let x = eps[a as int];
            let y = eps[c as int];
            let o = natural_order(ps[x.comp as int].key, ps[y.comp as int].key);
            o > 0 || (o == 0 && natural_order(x.pad@, y.pad@) > 0)
        }
}

/// The endpoints of a net, in order.
pub open spec fn ordered_endpoints(sch: Schematic, ps: Seq<PartView>, net: Net) -> Seq<PadRef> {
    let eps = endpoints_of(sch, ps, net, net.ports@.len() as int);
    let ranked = sorted_by(upto(eps.len() as int), endpoint_behind(ps, eps));
    Seq::new(ranked.len(), |i: int| eps[ranked[i] as int])
}

/// The net of a pad: the last of the first `n` that holds it.
pub open spec fn pad_net(ws: Seq<WireView>, ci: int, pad: Seq<char>, n: int) -> Option<int>
    decreases n,
{
    if n <= 0 || n > ws.len() {
        None
    } else if holds_endpoint(ws[n - 1].endpoints, ci, pad) {
        Some(n - 1)
    } else {
        pad_net(ws, ci, pad, n - 1)
    }
}

pub open spec fn holds_endpoint(eps: Seq<PadRef>, ci: int, pad: Seq<char>) -> bool {
    exists|e: int| 0 <= e < eps.len() && (#[trigger] eps[e]).comp == ci && eps[e].pad@ == pad
}

fn order_nets(sch: &Schematic) -> (r: Vec<usize>)
    ensures
        r@ == net_order(*sch),
        below(r@, sch.nets@.len() as int),
{
    let mut all: Vec<usize> = Vec::new();
    let nets: &Vec<Net> = &sch.nets;
    let mut n: usize = 0;
    while n < nets.len()
        invariant
            n <= nets.len(),
            *nets == sch.nets,
            all@ == connecting(*sch, n as int),
            below(all@, nets@.len() as int),
        decreases nets.len() - n,
    {
        if !is_text(&chars_of(nets[n].kind.as_str()), "NotConnected") {
            all.push(n);
        }
        n = n + 1;
    }
    let after = |a: usize, c: usize| -> (r: bool)
        requires
            a < nets@.len(),
            c < nets@.len(),
        ensures
            r == text_behind(nets@[a as int].name@, nets@[c as int].name@),
        { is_text_behind(&nets[a].name, &nets[c].name) };
    let r: Vec<usize> = sort_by(&all, after, Ghost(name_behind(*sch)));
    proof {
        lemma_sorted_items(all@, name_behind(*sch), |i: usize| i < nets@.len());
        assert forall|i: int| 0 <= i < r@.len() implies #[trigger] r@[i] < nets@.len() by {
            assert((|i: usize| i < nets@.len())(r@[i]));
        }
    }
    r
}

/// Every endpoint belongs to one of `n` components.
pub open spec fn endpoints_below(eps: Seq<PadRef>, n: int) -> bool {
    forall|e: int| 0 <= e < eps.len() ==> (#[trigger] eps[e]).comp < n
}

fn list_endpoints(sch: &Schematic, comps: &[Comp], net: &Net) -> (r: Vec<PadRef>)
    ensures
        r@ == ordered_endpoints(*sch, parts(comps@), *net),
        endpoints_below(r@, comps@.len() as int),
{
    let ghost ps = parts(comps@);
    let mut eps: Vec<PadRef> = Vec::new();
    let mut n: usize = 0;
    while n < net.ports.len()
        invariant
            n <= net.ports.len(),
            ps == parts(comps@),
            eps@ == endpoints_of(*sch, ps, *net, n as int),
            endpoints_below(eps@, comps@.len() as int),
        decreases net.ports.len() - n,
    {
        let owner: Option<usize> = match net.ports[n].owner {
            Some(o) => if o < sch.instances.len() {
                find_comp(comps, &dotted_path(&sch.instances[o].path))
            } else {
                None
            },
            None => None,
        };
        let port: usize = net.ports[n].port;
        match owner {
            Some(ci) => {
                if port < sch.instances.len() {
                    let pd: Vec<String> = pads_of(&sch.instances[port]);
                    let ghost before = eps@;
                    let mut k: usize = 0;
                    proof {
                        assert(before =~= before + pad_refs(ci, pd@, 0));
                    }
                    while k < pd.len()
                        invariant
                            k <= pd.len(),
                            ci < comps@.len(),
                            eps@ == before + pad_refs(ci, pd@, k as int),
                            endpoints_below(eps@, comps@.len() as int),
                        decreases pd.len() - k,
                    {
                        eps.push(PadRef { comp: ci, pad: pd[k].clone() });
                        k = k + 1;
                        proof {
                            assert(eps@ =~= before + pad_refs(ci, pd@, k as int));
                        }
                    }
                }
            },
            None => {},
        }
        n = n + 1;
    }
    let places: Vec<usize> = indices(eps.len());
    let after = |a: usize, c: usize| -> (r: bool)
        requires
            a < eps@.len(),
            c < eps@.len(),
            eps@[a as int].comp < comps@.len(),
            eps@[c as int].comp < comps@.len(),
        ensures
            r == ({
                let x = eps@[a as int];
                let y = eps@[c as int];
                let o = natural_order(
                    comps@[x.comp as int].path_key@,
                    comps@[y.comp as int].path_key@,
                );
                o > 0 || (o == 0 && natural_order(x.pad@, y.pad@) > 0)
            }),
        {
            let o: i8 = natural_compare(
                comps[eps[a].comp].path_key.show().as_str(),
                comps[eps[c].comp].path_key.show().as_str(),
            );
            o > 0 || (o == 0 && natural_compare(eps[a].pad.as_str(), eps[c].pad.as_str()) > 0)
        };
    let ghost by_comp = |a: usize, c: usize|
        {
            let x = eps@[a as int];
            let y = eps@[c as int];
            let o = natural_order(
                comps@[x.comp as int].path_key@,
                comps@[y.comp as int].path_key@,
            );
            o > 0 || (o == 0 && natural_order(x.pad@, y.pad@) > 0)
        };
    let ranked: Vec<usize> = sort_by(&places, after, Ghost(by_comp));
    proof {
        let top = eps@.len() as int;
        lemma_sorted_items(places@, by_comp, |i: usize| i < top);
        assert forall|i: int| 0 <= i < ranked@.len() implies #[trigger] ranked@[i] < top by {
            assert((|i: usize| i < top)(ranked@[i]));
        }
        assert forall|a: usize, c: usize| a < top && c < top implies #[trigger] by_comp(a, c)
            == endpoint_behind(ps, eps@)(a, c) by {
            assert(eps@[a as int].comp < comps@.len());
            assert(eps@[c as int].comp < comps@.len());
        }
        crate::columns::lemma_sort_agrees(places@, by_comp, endpoint_behind(ps, eps@), top);
    }
    let mut out: Vec<PadRef> = Vec::new();
    let ghost want = ordered_endpoints(*sch, ps, *net);
    let mut n: usize = 0;
    while n < ranked.len()
        invariant
            n <= ranked.len(),
            below(ranked@, eps@.len() as int),
            endpoints_below(eps@, comps@.len() as int),
            want.len() == ranked@.len(),
            forall|i: int| 0 <= i < want.len() ==> #[trigger] want[i] == eps@[ranked@[i] as int],
            out@ =~= want.take(n as int),
            endpoints_below(out@, comps@.len() as int),
        decreases ranked.len() - n,
    {
        let e: &PadRef = &eps[ranked[n]];
        out.push(PadRef { comp: e.comp, pad: e.pad.clone() });
        n = n + 1;
    }
    proof {
        assert(out@ =~= want);
    }
    out
}

/// The net as it is read: its name, its class and its endpoints.
pub open spec fn is_net(m: NetModel, sch: Schematic, ps: Seq<PartView>, net: Net) -> bool {
    &&& m.name == net.name
    &&& m.class == class_of(net.kind@)
    &&& m.endpoints@ == ordered_endpoints(sch, ps, net)
}

pub open spec fn are_nets(nets: Seq<NetModel>, sch: Schematic, ps: Seq<PartView>, order: Seq<usize>, n: int) -> bool {
    nets.len() == n && forall|i: int|
        0 <= i < n ==> is_net(#[trigger] nets[i], sch, ps, sch.nets@[order[i] as int])
}

pub open spec fn nets_below(nets: Seq<NetModel>, n: int) -> bool {
    forall|i: int| 0 <= i < nets.len() ==> endpoints_below((#[trigger] nets[i]).endpoints@, n)
}

fn read_nets(sch: &Schematic, comps: &[Comp]) -> (r: Vec<NetModel>)
    ensures
        are_nets(r@, *sch, parts(comps@), net_order(*sch), net_order(*sch).len() as int),
        nets_below(r@, comps@.len() as int),
{
    let order: Vec<usize> = order_nets(sch);
    let ghost ps = parts(comps@);
    let mut out: Vec<NetModel> = Vec::new();
    let mut n: usize = 0;
    while n < order.len()
        invariant
            n <= order.len(),
            below(order@, sch.nets@.len() as int),
            ps == parts(comps@),
            are_nets(out@, *sch, ps, order@, n as int),
            nets_below(out@, comps@.len() as int),
        decreases order.len() - n,
    {
        let net: &Net = &sch.nets[order[n]];
        let kind: Vec<char> = chars_of(net.kind.as_str());
        let class: NetClass = if is_text(&kind, "Power") {
            NetClass::Power
        } else if is_text(&kind, "Ground") {
            NetClass::Ground
        } else {
            NetClass::Signal
        };
        let endpoints: Vec<PadRef> = list_endpoints(sch, comps, net);
        let ghost before = out@;
        out.push(
            NetModel {
                name: net.name.clone(),
                class,
                endpoints: boxed(endpoints),
                driven: false,
                digital: false,
            },
        );
        n = n + 1;
        proof {
            assert forall|i: int| 0 <= i < n implies is_net(
                #[trigger] out@[i],
                *sch,
                ps,
                sch.nets@[order@[i] as int],
            ) by {
                if i < n - 1 {
                    assert(out@[i] == before[i]);
                }
            }
            assert forall|i: int| 0 <= i < out@.len() implies endpoints_below(
                (#[trigger] out@[i]).endpoints@,
                comps@.len() as int,
            ) by {
                if i < n - 1 {
                    assert(out@[i] == before[i]);
                }
            }
        }
    }
    out
}

fn has_endpoint(eps: &[PadRef], ci: usize, pad: &String) -> (r: bool)
    ensures
        r == holds_endpoint(eps@, ci as int, pad@),
{
    let mut e: usize = 0;
    while e < eps.len()
        invariant
            e <= eps.len(),
            forall|k: int|
                0 <= k < e ==> !((#[trigger] eps@[k]).comp == ci && eps@[k].pad@ == pad@),
        decreases eps.len() - e,
    {
        if eps[e].comp == ci && eps[e].pad == *pad {
            return true;
        }
        e = e + 1;
    }
    false
}

/// The net of a pad.
pub fn find_pad_net(nets: &[NetModel], ci: usize, pad: &String) -> (r: Option<usize>)
    ensures
        match r {
            Some(k) => pad_net(wires(nets@), ci as int, pad@, nets@.len() as int) == Some(k as int)
                && k < nets@.len(),
            None => pad_net(wires(nets@), ci as int, pad@, nets@.len() as int) is None,
        },
{
    let ghost ws = wires(nets@);
    let mut n: usize = nets.len();
    while n > 0
        invariant
            n <= nets.len(),
            ws == wires(nets@),
            pad_net(ws, ci as int, pad@, nets@.len() as int) == pad_net(
                ws,
                ci as int,
                pad@,
                n as int,
            ),
        decreases n,
    {
        proof {
            assert(ws[n - 1].endpoints == nets@[n - 1].endpoints@);
        }
        if has_endpoint(&nets[n - 1].endpoints, ci, pad) {
            return Some(n - 1);
        }
        n = n - 1;
    }
    None
}

// ---------------------------------------------------------------- driven rails

/// The nets that the first `n` pins of a component drive.
pub open spec fn driven_by(ws: Seq<WireView>, ci: int, pins: Seq<PinGeom>, n: int) -> Seq<usize>
    decreases n,
{
    if n <= 0 || n > pins.len() {
        Seq::empty()
    } else {
        let before = driven_by(ws, ci, pins, n - 1);
        let pin = pins[n - 1];
        match pad_net(ws, ci, pin.number@, ws.len() as int) {
            Some(k) => if pin.etype@ == "power_out"@ || pin.etype@ == "output"@ {
                before.push(k as usize)
            } else {
                before
            },
            None => before,
        }
    }
}

/// The nets that the first `n` components drive.
pub open spec fn all_driven(ps: Seq<PartView>, ws: Seq<WireView>, n: int) -> Seq<usize>
    decreases n,
{
    if n <= 0 || n > ps.len() {
        Seq::empty()
    } else {
        let pins = ps[n - 1].geom.pins@;
        all_driven(ps, ws, n - 1) + driven_by(ws, n - 1, pins, pins.len() as int)
    }
}

/// The net is driven by an output.
pub open spec fn is_driven(ps: Seq<PartView>, ws: Seq<WireView>, ni: int) -> bool {
    includes(all_driven(ps, ws, ps.len() as int), ni)
}

fn list_driven(comps: &[Comp], nets: &[NetModel]) -> (r: Vec<usize>)
    ensures
        r@ == all_driven(parts(comps@), wires(nets@), comps@.len() as int),
{
    let ghost ps = parts(comps@);
    let ghost ws = wires(nets@);
    let mut out: Vec<usize> = Vec::new();
    let mut n: usize = 0;
    while n < comps.len()
        invariant
            n <= comps.len(),
            ps == parts(comps@),
            ws == wires(nets@),
            out@ == all_driven(ps, ws, n as int),
        decreases comps.len() - n,
    {
        let pins: &[PinGeom] = &comps[n].geom.pins;
        let ghost before = out@;
        let mut k: usize = 0;
        proof {
            assert(ps[n as int].geom.pins@ == pins@);
            assert(before =~= before + driven_by(ws, n as int, pins@, 0));
        }
        while k < pins.len()
            invariant
                k <= pins.len(),
                ws == wires(nets@),
                out@ == before + driven_by(ws, n as int, pins@, k as int),
            decreases pins.len() - k,
        {
            let etype: Vec<char> = chars_of(pins[k].etype.show().as_str());
            if is_text(&etype, "power_out") || is_text(&etype, "output") {
                match find_pad_net(nets, n, &pins[k].number.show()) {
                    Some(ni) => {
                        out.push(ni);
                    },
                    None => {},
                }
            }
            k = k + 1;
            proof {
                assert(out@ =~= before + driven_by(ws, n as int, pins@, k as int));
            }
        }
        n = n + 1;
    }
    out
}

// ---------------------------------------------------------------- roles

/// The nets on the first `n` pins of `order`, each once.
pub open spec fn nets_on(ws: Seq<WireView>, ci: int, pins: Seq<PinGeom>, order: Seq<usize>, n: int) -> Seq<
    usize,
>
    decreases n,
{
    if n <= 0 || n > order.len() {
        Seq::empty()
    } else {
        let before = nets_on(ws, ci, pins, order, n - 1);
        match pad_net(ws, ci, pins[order[n - 1] as int].number@, ws.len() as int) {
            Some(k) => if includes(before, k) {
                before
            } else {
                before.push(k as usize)
            },
            None => before,
        }
    }
}

/// The nets of a component, in the natural order of its pins.
pub open spec fn comp_nets(ps: Seq<PartView>, ws: Seq<WireView>, ci: int) -> Seq<usize> {
    let pins = ps[ci].geom.pins@;
    let order = pins_in_order(pins);
    nets_on(ws, ci, pins, order, order.len() as int)
}

pub open spec fn any_class(ws: Seq<WireView>, nets: Seq<usize>, class: NetClass) -> bool {
    exists|i: int| 0 <= i < nets.len() && ws[#[trigger] nets[i] as int].class == class
}

pub open spec fn classes_on(ws: Seq<WireView>, nets: Seq<usize>) -> OnNets {
    OnNets {
        power: any_class(ws, nets, NetClass::Power),
        ground: any_class(ws, nets, NetClass::Ground),
        signal: any_class(ws, nets, NetClass::Signal),
    }
}

/// The role of component number `ci`.
pub open spec fn role_at(
    sch: Schematic,
    ps: Seq<PartView>,
    ws: Seq<WireView>,
    ci: int,
    limit: u64,
) -> Role {
    spec_role(
        sch.instances@[comp_order(sch)[ci] as int],
        ps[ci].visible == 2,
        classes_on(ws, comp_nets(ps, ws, ci)),
        limit,
    )
}

/// The nets of a component, in the natural order of its pins.
pub fn comp_net_classes(comps: &[Comp], nets: &[NetModel], ci: usize) -> (r: Vec<usize>)
    requires
        ci < comps@.len(),
    ensures
        r@ == comp_nets(parts(comps@), wires(nets@), ci as int),
        below(r@, nets@.len() as int),
{
    let pins: &[PinGeom] = &comps[ci].geom.pins;
    let order: Vec<usize> = order_pins(pins);
    let ghost ws = wires(nets@);
    let mut out: Vec<usize> = Vec::new();
    let mut n: usize = 0;
    while n < order.len()
        invariant
            n <= order.len(),
            below(order@, pins@.len() as int),
            ws == wires(nets@),
            out@ == nets_on(ws, ci as int, pins@, order@, n as int),
            below(out@, nets@.len() as int),
        decreases order.len() - n,
    {
        match find_pad_net(nets, ci, &pins[order[n]].number.show()) {
            Some(k) => {
                if !list_includes(&out, k) {
                    out.push(k);
                }
            },
            None => {},
        }
        n = n + 1;
    }
    out
}

fn find_class(nets: &[NetModel], list: &Vec<usize>, class: NetClass) -> (r: bool)
    requires
        below(list@, nets@.len() as int),
    ensures
        r == any_class(wires(nets@), list@, class),
{
    let ghost ws = wires(nets@);
    let mut i: usize = 0;
    while i < list.len()
        invariant
            i <= list.len(),
            ws == wires(nets@),
            below(list@, nets@.len() as int),
            forall|k: int| 0 <= k < i ==> ws[#[trigger] list@[k] as int].class != class,
        decreases list.len() - i,
    {
        proof {
            assert(ws[list@[i as int] as int].class == nets@[list@[i as int] as int].class);
        }
        if nets[list[i]].class == class {
            return true;
        }
        i = i + 1;
    }
    false
}

fn find_roles(sch: &Schematic, comps: &[Comp], nets: &[NetModel], order: &Vec<usize>, limit: u64) -> (r:
    Vec<Role>)
    requires
        order@ == comp_order(*sch),
        below(order@, sch.instances@.len() as int),
        comps@.len() == order@.len(),
    ensures
        r@ == Seq::new(
            comps@.len(),
            |i: int| role_at(*sch, parts(comps@), wires(nets@), i, limit),
        ),
{
    let ghost ps = parts(comps@);
    let ghost ws = wires(nets@);
    let mut out: Vec<Role> = Vec::new();
    let mut n: usize = 0;
    while n < comps.len()
        invariant
            n <= comps.len(),
            ps == parts(comps@),
            ws == wires(nets@),
            order@ == comp_order(*sch),
            below(order@, sch.instances@.len() as int),
            comps@.len() == order@.len(),
            out@.len() == n,
            forall|i: int| 0 <= i < n ==> #[trigger] out@[i] == role_at(*sch, ps, ws, i, limit),
        decreases comps.len() - n,
    {
        let list: Vec<usize> = comp_net_classes(comps, nets, n);
        let on: OnNets = OnNets {
            power: find_class(nets, &list, NetClass::Power),
            ground: find_class(nets, &list, NetClass::Ground),
            signal: find_class(nets, &list, NetClass::Signal),
        };
        proof {
            assert(ps[n as int].visible == comps@[n as int].visible_pins);
        }
        out.push(
            classify_role(&sch.instances[order[n]], comps[n].visible_pins == 2, on, limit),
        );
        n = n + 1;
    }
    proof {
        assert(out@ =~= Seq::new(
            comps@.len(),
            |i: int| role_at(*sch, parts(comps@), wires(nets@), i, limit),
        ));
    }
    out
}

// ---------------------------------------------------------------- digital nets

/// The rail at the other end of a pull, from number `i` of its nets on: `true` for a supply.
pub open spec fn rail_from(ws: Seq<WireView>, nets: Seq<usize>, ni: int, i: int) -> Option<bool>
    decreases nets.len() - i,
{
    if i < 0 || i >= nets.len() {
        None
    } else if nets[i] != ni && ws[nets[i] as int].class == NetClass::Power {
        Some(true)
    } else if nets[i] != ni && ws[nets[i] as int].class == NetClass::Ground {
        Some(false)
    } else {
        rail_from(ws, nets, ni, i + 1)
    }
}

pub open spec fn pull_rail(ps: Seq<PartView>, ws: Seq<WireView>, ci: int, ni: int) -> Option<bool> {
    rail_from(ws, comp_nets(ps, ws, ci), ni, 0)
}

/// The components met on a net so far, with what they say of it.
pub struct Digital {
    pub met: Seq<usize>,
    pub clean: bool,
    pub boxed: bool,
    pub ups: nat,
    pub downs: nat,
}

/// The first `n` endpoints of a net: every part that is not passive must be a box, and every
/// passive part a pull to a rail.
pub open spec fn digital_upto(
    ps: Seq<PartView>,
    ws: Seq<WireView>,
    roles: Seq<Role>,
    ni: int,
    n: int,
) -> Digital
    decreases n,
{
    if n <= 0 || n > ws[ni].endpoints.len() {
        Digital { met: Seq::empty(), clean: true, boxed: false, ups: 0, downs: 0 }
    } else {
        let d = digital_upto(ps, ws, roles, ni, n - 1);
        let ci = ws[ni].endpoints[n - 1].comp;
        if includes(d.met, ci as int) {
            d
        } else {
            let met = d.met.push(ci);
            let role = roles[ci as int];
            if role.spec_is_satellite() {
                if role != Role::Pull {
                    Digital { met, clean: false, ..d }
                } else {
                    match pull_rail(ps, ws, ci as int, ni) {
                        Some(true) => Digital { met, ups: d.ups + 1, ..d },
                        Some(false) => Digital { met, downs: d.downs + 1, ..d },
                        None => Digital { met, clean: false, ..d },
                    }
                }
            } else if ps[ci as int].boxed {
                Digital { met, boxed: true, ..d }
            } else {
                Digital { met, clean: false, ..d }
            }
        }
    }
}

/// A signal between boxes, with at most one pull to a supply and one to ground.
pub open spec fn is_digital(ps: Seq<PartView>, ws: Seq<WireView>, roles: Seq<Role>, ni: int) -> bool {
    let d = digital_upto(ps, ws, roles, ni, ws[ni].endpoints.len() as int);
    ws[ni].class == NetClass::Signal && d.clean && d.boxed && d.ups <= 1 && d.downs <= 1
}

fn pull_rail_polarity(comps: &[Comp], nets: &[NetModel], ci: usize, ni: usize) -> (r: Option<
    bool,
>)
    requires
        ci < comps@.len(),
    ensures
        r == pull_rail(parts(comps@), wires(nets@), ci as int, ni as int),
{
    let ghost ws = wires(nets@);
    let list: Vec<usize> = comp_net_classes(comps, nets, ci);
    let ghost want = comp_nets(parts(comps@), ws, ci as int);
    let mut i: usize = 0;
    while i < list.len()
        invariant
            i <= list.len(),
            ws == wires(nets@),
            list@ == want,
            want == comp_nets(parts(comps@), ws, ci as int),
            below(list@, nets@.len() as int),
            rail_from(ws, want, ni as int, 0) == rail_from(ws, want, ni as int, i as int),
        decreases list.len() - i,
    {
        proof {
            assert(ws[list@[i as int] as int].class == nets@[list@[i as int] as int].class);
        }
        if list[i] != ni {
            match nets[list[i]].class {
                NetClass::Power => return Some(true),
                NetClass::Ground => return Some(false),
                NetClass::Signal => {},
            }
        }
        i = i + 1;
    }
    None
}

fn net_is_digital(comps: &[Comp], nets: &[NetModel], roles: &Vec<Role>, ni: usize) -> (r: bool)
    requires
        ni < nets@.len(),
        nets_below(nets@, comps@.len() as int),
        roles@.len() == comps@.len(),
    ensures
        r == is_digital(parts(comps@), wires(nets@), roles@, ni as int),
{
    let ghost ps = parts(comps@);
    let ghost ws = wires(nets@);
    proof {
        assert(ws[ni as int].class == nets@[ni as int].class);
        assert(ws[ni as int].endpoints == nets@[ni as int].endpoints@);
    }
    if nets[ni].class != NetClass::Signal {
        return false;
    }
    let eps: &[PadRef] = &nets[ni].endpoints;
    let mut met: Vec<usize> = Vec::new();
    let mut clean: bool = true;
    let mut boxed: bool = false;
    let mut ups: usize = 0;
    let mut downs: usize = 0;
    let mut n: usize = 0;
    while n < eps.len()
        invariant
            n <= eps.len(),
            ps == parts(comps@),
            ws == wires(nets@),
            ni < nets@.len(),
            eps@ == ws[ni as int].endpoints,
            endpoints_below(eps@, comps@.len() as int),
            roles@.len() == comps@.len(),
            ups <= n,
            downs <= n,
            (Digital { met: met@, clean, boxed, ups: ups as nat, downs: downs as nat })
                == digital_upto(ps, ws, roles@, ni as int, n as int),
        decreases eps.len() - n,
    {
        let ci: usize = eps[n].comp;
        if !list_includes(&met, ci) {
            met.push(ci);
            if is_passive_like(roles[ci]) {
                if roles[ci] != Role::Pull {
                    clean = false;
                } else {
                    match pull_rail_polarity(comps, nets, ci, ni) {
                        Some(true) => {
                            ups = ups + 1;
                        },
                        Some(false) => {
                            downs = downs + 1;
                        },
                        None => {
                            clean = false;
                        },
                    }
                }
            } else if comps[ci].synthesized {
                boxed = true;
            } else {
                clean = false;
            }
        }
        n = n + 1;
    }
    clean && boxed && ups <= 1 && downs <= 1
}

// ---------------------------------------------------------------- positions set by hand

/// Those of the first `n` instances that are modules with positions set by hand.
pub open spec fn positioned(sch: Schematic, n: int) -> Seq<usize>
    decreases n,
{
    if n <= 0 || n > sch.instances@.len() {
        Seq::empty()
    } else {
        let i = sch.instances@[n - 1];
        if i.kind == InstanceKind::Module && i.symbol_positions@.len() > 0 {
            positioned(sch, n - 1).push((n - 1) as usize)
        } else {
            positioned(sch, n - 1)
        }
    }
}

/// Module `a` counts less than module `c`: it lies deeper, or behind it.
pub open spec fn module_behind(sch: Schematic) -> spec_fn(usize, usize) -> bool {
    |a: usize, c: usize|
        {
            let x = sch.instances@[a as int].path@;
            let y = sch.instances@[c as int].path@;
            x.len() > y.len() || (x.len() == y.len() && natural_order(dotted(x), dotted(y)) > 0)
        }
}

pub open spec fn module_order(sch: Schematic) -> Seq<usize> {
    sorted_by(positioned(sch, sch.instances@.len() as int), module_behind(sch))
}

pub open spec fn key_behind(ps: Seq<SymbolPosition>) -> spec_fn(usize, usize) -> bool {
    |a: usize, c: usize| text_behind(ps[a as int].key@, ps[c as int].key@)
}

/// The positions of a module, by their keys.
pub open spec fn position_order(ps: Seq<SymbolPosition>) -> Seq<usize> {
    sorted_by(upto(ps.len() as int), key_behind(ps))
}

/// The first child, from `i` on, with this name.
pub open spec fn child_named(children: Seq<Child>, name: Seq<char>, i: int) -> Option<usize>
    decreases children.len() - i,
{
    if i < 0 || i >= children.len() {
        None
    } else if children[i].name@ == name {
        Some(children[i].instance)
    } else {
        child_named(children, name, i + 1)
    }
}

/// The instance that the names from number `k` on lead to.
pub open spec fn walked(sch: Schematic, cur: usize, names: Seq<Seq<char>>, k: int) -> Option<usize>
    decreases names.len() - k,
{
    if k < 0 || k >= names.len() {
        Some(cur)
    } else if cur >= sch.instances@.len() {
        None
    } else {
        match child_named(sch.instances@[cur as int].children@, names[k], 0) {
            Some(next) => walked(sch, next, names, k + 1),
            None => None,
        }
    }
}

/// The component that a dotted name below a module stands for.
pub open spec fn comp_below(sch: Schematic, ps: Seq<PartView>, module: usize, rel: Seq<char>) -> Option<int> {
    match walked(sch, module, pieces(rel, '.', rel.len() as int), 0) {
        Some(i) => if i < sch.instances@.len() && sch.instances@[i as int].kind
            == InstanceKind::Component {
            comp_at(ps, dotted(sch.instances@[i as int].path@), ps.len() as int)
        } else {
            None
        },
        None => None,
    }
}

/// What a key of a position asks for.
pub enum Asked {
    /// Nothing that is placed.
    Nothing,
    /// A unit that is not drawn.
    OtherUnit,
    /// The component with this name below the module.
    Name(Seq<char>),
}

/// What a key asks for: `comp:` and a name, with the first unit or none behind it.
pub open spec fn asked(key: Seq<char>) -> Asked {
    if !holds_at(key, "comp:"@, 0) {
        Asked::Nothing
    } else {
        let rel = key.skip(5);
        match place_of_char(rel, '@', 0) {
            Some(p) => if rel.skip(p + 1) == "U1"@ {
                Asked::Name(rel.take(p))
            } else {
                Asked::OtherUnit
            },
            None => Asked::Name(rel),
        }
    }
}

/// The positions found so far, and the remarks made.
pub struct Found {
    pub at: Seq<Option<ManualPosition>>,
    pub said: Seq<Warning>,
}

/// One more position.
pub open spec fn found_one(sch: Schematic, ps: Seq<PartView>, module: usize, p: SymbolPosition, f: Found) -> Found {
    match asked(p.key@) {
        Asked::Nothing => f,
        Asked::OtherUnit => Found {
            at: f.at,
            said: f.said.push(Warning::ManualMultiUnit { key: p.key }),
        },
        Asked::Name(rel) => match comp_below(sch, ps, module, rel) {
            Some(ci) => if f.at[ci] is Some {
                f
            } else {
                Found {
                    at: f.at.update(ci, Some(converted(p.position, ps[ci].geom))),
                    said: f.said,
                }
            },
            None => Found {
                at: f.at,
                said: f.said.push(Warning::ManualNotFound { key: p.key }),
            },
        },
    }
}

/// The first `n` positions of a module.
pub open spec fn found_in(sch: Schematic, ps: Seq<PartView>, module: usize, f: Found, n: int) -> Found
    decreases n,
{
    let list = sch.instances@[module as int].symbol_positions@;
    let order = position_order(list);
    if n <= 0 || n > order.len() {
        f
    } else {
        found_one(
            sch,
            ps,
            module,
            list[order[n - 1] as int],
            found_in(sch, ps, module, f, n - 1),
        )
    }
}

/// The positions of the first `n` modules, those nearest to the root first.
pub open spec fn found_upto(sch: Schematic, ps: Seq<PartView>, n: int) -> Found
    decreases n,
{
    let order = module_order(sch);
    if n <= 0 || n > order.len() {
        Found { at: Seq::new(ps.len(), |i: int| None), said: Seq::empty() }
    } else {
        let m = order[n - 1];
        found_in(
            sch,
            ps,
            m,
            found_upto(sch, ps, n - 1),
            sch.instances@[m as int].symbol_positions@.len() as int,
        )
    }
}

/// All positions set by hand.
pub open spec fn manual_positions(sch: Schematic, ps: Seq<PartView>) -> Found {
    found_upto(sch, ps, module_order(sch).len() as int)
}

fn order_modules(sch: &Schematic) -> (r: Vec<usize>)
    ensures
        r@ == module_order(*sch),
        below(r@, sch.instances@.len() as int),
{
    let mut all: Vec<usize> = Vec::new();
    let mut keys: Vec<String> = Vec::new();
    let instances: &Vec<Instance> = &sch.instances;
    let mut n: usize = 0;
    while n < instances.len()
        invariant
            n <= instances.len(),
            *instances == sch.instances,
            all@ == positioned(*sch, n as int),
            below(all@, instances@.len() as int),
            keys@.len() == n,
            forall|i: int| 0 <= i < n ==> (#[trigger] keys@[i])@ == dotted(instances@[i].path@),
        decreases instances.len() - n,
    {
        if instances[n].kind == InstanceKind::Module && instances[n].symbol_positions.len() > 0 {
            all.push(n);
        }
        keys.push(dotted_path(&instances[n].path));
        n = n + 1;
    }
    let after = |a: usize, c: usize| -> (r: bool)
        requires
            a < keys@.len(),
            c < keys@.len(),
            a < instances@.len(),
            c < instances@.len(),
        ensures
            r == ({
                let x = instances@[a as int].path@.len();
                let y = instances@[c as int].path@.len();
                x > y || (x == y && natural_order(keys@[a as int]@, keys@[c as int]@) > 0)
            }),
        {
            let x: usize = instances[a].path.len();
            let y: usize = instances[c].path.len();
            x > y || (x == y && natural_compare(keys[a].as_str(), keys[c].as_str()) > 0)
        };
    let ghost by_depth = |a: usize, c: usize|
        {
            let x = instances@[a as int].path@.len();
            let y = instances@[c as int].path@.len();
            x > y || (x == y && natural_order(keys@[a as int]@, keys@[c as int]@) > 0)
        };
    let r: Vec<usize> = sort_by(&all, after, Ghost(by_depth));
    proof {
        let top = instances@.len() as int;
        lemma_sorted_items(all@, by_depth, |i: usize| i < top);
        assert forall|i: int| 0 <= i < r@.len() implies #[trigger] r@[i] < top by {
            assert((|i: usize| i < top)(r@[i]));
        }
        crate::columns::lemma_sort_agrees(all@, by_depth, module_behind(*sch), top);
    }
    r
}

fn order_positions(list: &Vec<SymbolPosition>) -> (r: Vec<usize>)
    ensures
        r@ == position_order(list@),
        r@.len() == list@.len(),
        below(r@, list@.len() as int),
{
    let all: Vec<usize> = indices(list.len());
    let after = |a: usize, c: usize| -> (r: bool)
        requires
            a < list@.len(),
            c < list@.len(),
        ensures
            r == text_behind(list@[a as int].key@, list@[c as int].key@),
        { is_text_behind(&list[a].key, &list[c].key) };
    let r: Vec<usize> = sort_by(&all, after, Ghost(key_behind(list@)));
    proof {
        lemma_sorted_items(all@, key_behind(list@), |i: usize| i < list@.len());
        assert forall|i: int| 0 <= i < r@.len() implies #[trigger] r@[i] < list@.len() by {
            assert((|i: usize| i < list@.len())(r@[i]));
        }
    }
    r
}

fn find_child(children: &Vec<Child>, name: &String) -> (r: Option<usize>)
    ensures
        r == child_named(children@, name@, 0),
{
    let mut i: usize = 0;
    while i < children.len()
        invariant
            i <= children.len(),
            child_named(children@, name@, 0) == child_named(children@, name@, i as int),
        decreases children.len() - i,
    {
        if children[i].name == *name {
            return Some(children[i].instance);
        }
        i = i + 1;
    }
    None
}

fn walk(sch: &Schematic, module: usize, names: &Vec<Vec<char>>) -> (r: Option<usize>)
    ensures
        r == walked(*sch, module, char_rows(names@), 0),
{
    let ghost ns = char_rows(names@);
    let mut cur: usize = module;
    let mut k: usize = 0;
    while k < names.len()
        invariant
            k <= names.len(),
            ns == char_rows(names@),
            walked(*sch, module, ns, 0) == walked(*sch, cur, ns, k as int),
        decreases names.len() - k,
    {
        if cur >= sch.instances.len() {
            return None;
        }
        let name: String = text_of(&names[k]);
        proof {
            assert(ns[k as int] == name@);
        }
        match find_child(&sch.instances[cur].children, &name) {
            Some(next) => {
                cur = next;
            },
            None => return None,
        }
        k = k + 1;
    }
    Some(cur)
}

/// The component that a dotted name below a module stands for.
pub fn resolve_comp_key(sch: &Schematic, comps: &[Comp], module: usize, rel: &Vec<char>) -> (r: Option<
    usize,
>)
    ensures
        match r {
            Some(k) => comp_below(*sch, parts(comps@), module, rel@) == Some(k as int) && k
                < comps@.len(),
            None => comp_below(*sch, parts(comps@), module, rel@) is None,
        },
{
    let names: Vec<Vec<char>> = split_chars(rel, '.');
    match walk(sch, module, &names) {
        Some(i) => {
            if i < sch.instances.len() && sch.instances[i].kind == InstanceKind::Component {
                find_comp(comps, &dotted_path(&sch.instances[i].path))
            } else {
                None
            }
        },
        None => None,
    }
}

fn find_one(
    sch: &Schematic,
    comps: &[Comp],
    module: usize,
    p: &SymbolPosition,
    at: &mut Vec<Option<ManualPosition>>,
    warnings: &mut Vec<Warning>,
    Ghost(f): Ghost<Found>,
    Ghost(w0): Ghost<Seq<Warning>>,
)
    requires
        old(at)@ == f.at,
        old(warnings)@ == w0 + f.said,
        old(at)@.len() == comps@.len(),
    ensures
        ({
            let g = found_one(*sch, parts(comps@), module, *p, f);
            final(at)@ == g.at && final(warnings)@ == w0 + g.said
        }),
        final(at)@.len() == comps@.len(),
{
    let key: Vec<char> = chars_of(p.key.as_str());
    let prefix: Vec<char> = chars_of("comp:");
    proof {
        reveal_strlit("comp:");
    }
    if !has_at(&key, &prefix, 0) {
        return;
    }
    let rel: Vec<char> = skip_chars(&key, 5);
    let rel: Vec<char> = match find_char(&rel, '@', 0) {
        Some(q) => {
            if !is_text(&skip_chars(&rel, q + 1), "U1") {
                warnings.push(Warning::ManualMultiUnit { key: p.key.clone() });
                proof {
                    assert(warnings@ =~= w0 + f.said.push(
                        Warning::ManualMultiUnit { key: p.key },
                    ));
                }
                return;
            }
            let name: Vec<char> = cut(&rel, 0, q);
            proof {
                assert(name@ =~= rel@.take(q as int));
            }
            name
        },
        None => rel,
    };
    proof {
        assert(asked(p.key@) == Asked::Name(rel@));
    }
    match resolve_comp_key(sch, comps, module, &rel) {
        Some(ci) => {
            if at[ci].is_none() {
                proof {
                    assert(parts(comps@)[ci as int].geom == comps@[ci as int].geom);
                }
                at.set(ci, Some(convert_manual_position(&p.position, &comps[ci].geom)));
            }
        },
        None => {
            warnings.push(Warning::ManualNotFound { key: p.key.clone() });
            proof {
                assert(warnings@ =~= w0 + f.said.push(Warning::ManualNotFound { key: p.key }));
            }
        },
    }
}

fn collect_manual_positions(sch: &Schematic, comps: &[Comp], warnings: &mut Vec<Warning>) -> (r: Vec<
    Option<ManualPosition>,
>)
    ensures
        r@ == manual_positions(*sch, parts(comps@)).at,
        r@.len() == comps@.len(),
        final(warnings)@ == old(warnings)@ + manual_positions(*sch, parts(comps@)).said,
{
    let ghost ps = parts(comps@);
    let ghost w0 = warnings@;
    let mut at: Vec<Option<ManualPosition>> = Vec::new();
    let mut i: usize = 0;
    while i < comps.len()
        invariant
            i <= comps.len(),
            at@.len() == i,
            forall|k: int| 0 <= k < i ==> #[trigger] at@[k] is None,
        decreases comps.len() - i,
    {
        at.push(None);
        i = i + 1;
    }
    let order: Vec<usize> = order_modules(sch);
    let mut n: usize = 0;
    proof {
        assert(at@ =~= found_upto(*sch, ps, 0).at);
        assert(w0 =~= w0 + found_upto(*sch, ps, 0).said);
    }
    while n < order.len()
        invariant
            n <= order.len(),
            ps == parts(comps@),
            order@ == module_order(*sch),
            below(order@, sch.instances@.len() as int),
            at@.len() == comps@.len(),
            at@ == found_upto(*sch, ps, n as int).at,
            warnings@ == w0 + found_upto(*sch, ps, n as int).said,
        decreases order.len() - n,
    {
        let m: usize = order[n];
        let list: &Vec<SymbolPosition> = &sch.instances[m].symbol_positions;
        let keys: Vec<usize> = order_positions(list);
        let ghost f = found_upto(*sch, ps, n as int);
        let mut k: usize = 0;
        while k < keys.len()
            invariant
                k <= keys.len(),
                ps == parts(comps@),
                m < sch.instances@.len(),
                *list == sch.instances@[m as int].symbol_positions,
                keys@ == position_order(list@),
                below(keys@, list@.len() as int),
                at@.len() == comps@.len(),
                at@ == found_in(*sch, ps, m, f, k as int).at,
                warnings@ == w0 + found_in(*sch, ps, m, f, k as int).said,
            decreases keys.len() - k,
        {
            find_one(
                sch,
                comps,
                m,
                &list[keys[k]],
                &mut at,
                warnings,
                Ghost(found_in(*sch, ps, m, f, k as int)),
                Ghost(w0),
            );
            k = k + 1;
        }
        n = n + 1;
    }
    at
}

// ---------------------------------------------------------------- the design

/// What a design built from a schematic is.
#[verifier::opaque]
pub open spec fn is_design(d: DesignModel, sch: Schematic, limit: u64) -> bool {
    let order = comp_order(sch);
    let ps = parts(d.comps@);
    let ws = wires(d.nets@);
    let manual = manual_positions(sch, ps);
    &&& are_comps(d.comps@, sch, order, order.len() as int)
    &&& are_nets(d.nets@, sch, ps, net_order(sch), net_order(sch).len() as int)
    &&& forall|i: int|
        0 <= i < d.comps@.len() ==> (#[trigger] d.comps@[i]).role == role_at(sch, ps, ws, i, limit)
            && d.comps@[i].manual == manual.at[i]
    &&& forall|i: int|
        0 <= i < d.nets@.len() ==> (#[trigger] d.nets@[i]).driven == is_driven(ps, ws, i)
            && d.nets@[i].digital == is_digital(
            ps,
            ws,
            Seq::new(d.comps@.len(), |k: int| role_at(sch, ps, ws, k, limit)),
            i,
        )
    &&& d.warnings@ == boxes_said(d.comps@, d.comps@.len() as int) + manual.said
}

fn say_boxes(comps: &[Comp]) -> (r: Vec<Warning>)
    ensures
        r@ == boxes_said(comps@, comps@.len() as int),
{
    let mut out: Vec<Warning> = Vec::new();
    let mut n: usize = 0;
    while n < comps.len()
        invariant
            n <= comps.len(),
            out@ == boxes_said(comps@, n as int),
        decreases comps.len() - n,
    {
        if comps[n].synthesized {
            out.push(
                Warning::BoxSymbol {
                    refdes: comps[n].refdes.clone(),
                    path: comps[n].path_key.clone(),
                },
            );
        }
        n = n + 1;
    }
    out
}

/// Everything but role and position is the same.
pub open spec fn same_but_use(a: Comp, c: Comp) -> bool {
    a == (Comp { role: a.role, manual: a.manual, ..c })
}

proof fn lemma_boxes_same(a: Seq<Comp>, c: Seq<Comp>, n: int)
    requires
        a.len() == c.len(),
        forall|i: int| 0 <= i < a.len() ==> same_but_use(#[trigger] a[i], c[i]),
    ensures
        boxes_said(a, n) == boxes_said(c, n),
    decreases n,
{
    if 0 < n <= a.len() {
        lemma_boxes_same(a, c, n - 1);
        assert(same_but_use(a[n - 1], c[n - 1]));
    }
}

fn classify_nets(comps: &[Comp], nets: &mut Vec<NetModel>, roles: &Vec<Role>)
    requires
        nets_below(old(nets)@, comps@.len() as int),
        roles@.len() == comps@.len(),
    ensures
        final(nets)@.len() == old(nets)@.len(),
        wires(final(nets)@) == wires(old(nets)@),
        forall|i: int|
            0 <= i < final(nets)@.len() ==> (#[trigger] final(nets)@[i]).name == old(nets)@[i].name
                && final(nets)@[i].driven == is_driven(parts(comps@), wires(old(nets)@), i)
                && final(nets)@[i].digital == is_digital(
                parts(comps@),
                wires(old(nets)@),
                roles@,
                i,
            ),
{
    let ghost ps = parts(comps@);
    let ghost n0 = nets@;
    let ghost ws = wires(n0);
    let driven: Vec<usize> = list_driven(comps, nets);
    let mut n: usize = 0;
    while n < nets.len()
        invariant
            n <= nets@.len(),
            nets@.len() == n0.len(),
            ps == parts(comps@),
            ws == wires(n0),
            wires(nets@) == ws,
            nets_below(nets@, comps@.len() as int),
            roles@.len() == comps@.len(),
            driven@ == all_driven(ps, ws, ps.len() as int),
            forall|i: int| 0 <= i < nets@.len() ==> (#[trigger] nets@[i]).name == n0[i].name,
            forall|i: int|
                0 <= i < n ==> (#[trigger] nets@[i]).driven == is_driven(ps, ws, i)
                    && nets@[i].digital == is_digital(ps, ws, roles@, i),
        decreases nets.len() - n,
    {
        proof {
            assert(ws[n as int].class == nets@[n as int].class);
        }
        let drive: bool = list_includes(&driven, n);
        let digital: bool = net_is_digital(comps, nets, roles, n);
        let ghost before = nets@;
        nets[n].driven = drive;
        nets[n].digital = digital;
        proof {
            assert forall|i: int| 0 <= i < nets@.len() implies (#[trigger] nets@[i]).name
                == n0[i].name && nets@[i].endpoints@ == before[i].endpoints@ && nets@[i].class
                == before[i].class by {
                assert(before[i].name == n0[i].name);
            }
            assert(wires(nets@) =~= wires(before));
            assert forall|i: int| 0 <= i < nets@.len() implies endpoints_below(
                (#[trigger] nets@[i]).endpoints@,
                comps@.len() as int,
            ) by {
                assert(endpoints_below(before[i].endpoints@, comps@.len() as int));
            }
            assert forall|i: int| 0 <= i < n + 1 implies (#[trigger] nets@[i]).driven == is_driven(
                ps,
                ws,
                i,
            ) && nets@[i].digital == is_digital(ps, ws, roles@, i) by {
                if i < n {
                    assert(nets@[i] == before[i]);
                }
            }
        }
        n = n + 1;
    }
}

fn classify_comps(comps: &mut Vec<Comp>, roles: &Vec<Role>, manual: &Vec<Option<ManualPosition>>)
    requires
        roles@.len() == old(comps)@.len(),
        manual@.len() == old(comps)@.len(),
    ensures
        final(comps)@.len() == old(comps)@.len(),
        forall|i: int|
            0 <= i < final(comps)@.len() ==> same_but_use(
                #[trigger] final(comps)@[i],
                old(comps)@[i],
            ) && final(comps)@[i].role == roles@[i] && final(comps)@[i].manual == manual@[i],
{
    let ghost c0 = comps@;
    let mut n: usize = 0;
    while n < comps.len()
        invariant
            n <= comps@.len(),
            comps@.len() == c0.len(),
            roles@.len() == c0.len(),
            manual@.len() == c0.len(),
            forall|i: int|
                0 <= i < n ==> same_but_use(#[trigger] comps@[i], c0[i]) && comps@[i].role
                    == roles@[i] && comps@[i].manual == manual@[i],
            forall|i: int| n <= i < comps@.len() ==> #[trigger] comps@[i] == c0[i],
        decreases comps.len() - n,
    {
        let ghost before = comps@;
        comps[n].role = roles[n];
        comps[n].manual = manual[n];
        proof {
            assert forall|i: int| 0 <= i < n + 1 implies same_but_use(#[trigger] comps@[i], c0[i])
                && comps@[i].role == roles@[i] && comps@[i].manual == manual@[i] by {
                if i < n {
                    assert(comps@[i] == before[i]);
                } else {
                    assert(before[i] == c0[i]);
                }
            }
        }
        n = n + 1;
    }
}

impl DesignModel {
    /// Read the design from the evaluated schematic.
    pub fn build(sch: &Schematic, cfg: &SchConfig) -> (r: Result<DesignModel, BuildError>)
        ensures
            match r {
                Ok(d) => {
                    &&& first_unsound(*sch, comp_order(*sch), 0) is None
                    &&& is_design(d, *sch, cfg.bulk_capacitance_pf)
                    &&& d.wf()
                },
                Err(e) => match first_unsound(*sch, comp_order(*sch), 0) {
                    Some(i) => is_fault(e, *sch, sch.instances@[comp_order(*sch)[i] as int]),
                    None => false,
                },
            },
    {
        let order: Vec<usize> = order_components(sch);
        let mut comps: Vec<Comp> = match read_comps(sch, &order) {
            Ok(c) => c,
            Err(e) => return Err(e),
        };
        let mut nets: Vec<NetModel> = read_nets(sch, &comps);
        let ghost ps = parts(comps@);
        let ghost ws = wires(nets@);
        let ghost c0 = comps@;
        let ghost n0 = nets@;
        let limit: u64 = cfg.bulk_capacitance_pf;
        let roles: Vec<Role> = find_roles(sch, &comps, &nets, &order, limit);
        classify_nets(&comps, &mut nets, &roles);
        let mut warnings: Vec<Warning> = say_boxes(&comps);
        let manual: Vec<Option<ManualPosition>> = collect_manual_positions(
            sch,
            &comps,
            &mut warnings,
        );
        classify_comps(&mut comps, &roles, &manual);
        proof {
            reveal(is_design);
            lemma_boxes_same(comps@, c0, c0.len() as int);
            assert forall|i: int| 0 <= i < comps@.len() implies is_comp(
                #[trigger] comps@[i],
                *sch,
                sch.instances@[order@[i] as int],
                lib_id_of(*sch, order@, i),
            ) by {
                assert(same_but_use(comps@[i], c0[i]));
                assert(is_comp(
                    c0[i],
                    *sch,
                    sch.instances@[order@[i] as int],
                    lib_id_of(*sch, order@, i),
                ));
            }
            assert(parts(comps@) =~= ps) by {
                assert forall|i: int| 0 <= i < comps@.len() implies parts(comps@)[i] == ps[i] by {
                    assert(same_but_use(comps@[i], c0[i]));
                }
            }
            assert forall|i: int| 0 <= i < nets@.len() implies is_net(
                #[trigger] nets@[i],
                *sch,
                ps,
                sch.nets@[net_order(*sch)[i] as int],
            ) by {
                assert(is_net(n0[i], *sch, ps, sch.nets@[net_order(*sch)[i] as int]));
                assert(wires(nets@)[i] == wires(n0)[i]);
            }
            assert forall|n: int, e: int|
                0 <= n < nets@.len() && 0 <= e < nets@[n].endpoints@.len() implies (
            #[trigger] nets@[n].endpoints@[e]).comp < comps@.len() by {
                assert(wires(nets@)[n] == wires(n0)[n]);
                assert(endpoints_below(n0[n].endpoints@, c0.len() as int));
                assert(nets@[n].endpoints@ == n0[n].endpoints@);
            }
        }
        Ok(
            DesignModel {
                comps: boxed(comps),
                nets: boxed(nets),
                warnings: boxed(warnings),
            },
        )
    }
}

} // verus!
