//! Which component each satellite belongs to, and the groups that follow from it.

use vstd::prelude::*;
use crate::geometry::PinGeom;
use crate::model::{Comp, NetClass, Role, Side};
use crate::order::{
    includes, lemma_sorted_items, list_includes, natural_compare, natural_order, sort_by,
    sorted_by,
};
use crate::orientation::roots_wf;
use crate::pins::{geom_of, pad_dir, pad_outward};
use crate::place::{find_pin_net, pin_net, PlacedComp, SheetNet};
use crate::text::{chars_of, has_at, holds_at};
use crate::texts::{Board, BoardView};
use crate::units::Point;
use crate::warning::Warning;

verus! {

// ---------------------------------------------------------------- nets of a component

/// The indices of the drawn pins among the first `n`.
pub open spec fn drawn_pins(pins: Seq<PinGeom>, n: int) -> Seq<usize>
    decreases n,
{
    if n <= 0 || n > pins.len() {
        Seq::empty()
    } else if pins[n - 1].hidden {
        drawn_pins(pins, n - 1)
    } else {
        drawn_pins(pins, n - 1).push((n - 1) as usize)
    }
}

/// Pin `a` comes behind pin `c` in the natural order of their numbers.
pub open spec fn pin_behind(pins: Seq<PinGeom>) -> spec_fn(usize, usize) -> bool {
    |a: usize, c: usize| natural_order(pins[a as int].number@, pins[c as int].number@) > 0
}

/// The drawn pins in the natural order of their numbers.
pub open spec fn pins_in_order(pins: Seq<PinGeom>) -> Seq<usize> {
    sorted_by(drawn_pins(pins, pins.len() as int), pin_behind(pins))
}

/// The nets on the first `n` pins of `order`, each once.
pub open spec fn nets_along(b: BoardView, pi: int, order: Seq<usize>, n: int) -> Seq<usize>
    decreases n,
{
    if n <= 0 || n > order.len() {
        Seq::empty()
    } else {
        let before = nets_along(b, pi, order, n - 1);
        let pin = geom_of(b.design, b.placed[pi]).pins@[order[n - 1] as int];
        match pin_net(b.nets, pi, pin.number@) {
            Some(sn) => if includes(before, sn) {
                before
            } else {
                before.push(sn as usize)
            },
            None => before,
        }
    }
}

/// The nets of a component, in the natural order of its pins.
pub open spec fn nets_of(b: BoardView, pi: int) -> Seq<usize> {
    let order = pins_in_order(geom_of(b.design, b.placed[pi]).pins@);
    nets_along(b, pi, order, order.len() as int)
}

pub open spec fn below(v: Seq<usize>, n: int) -> bool {
    forall|i: int| 0 <= i < v.len() ==> #[trigger] v[i] < n
}

/// The drawn pins in the natural order of their numbers.
pub fn order_pins(pins: &[PinGeom]) -> (r: Vec<usize>)
    ensures
        r@ == pins_in_order(pins@),
        below(r@, pins@.len() as int),
{
    let mut drawn: Vec<usize> = Vec::new();
    let mut n: usize = 0;
    while n < pins.len()
        invariant
            n <= pins.len(),
            drawn@ == drawn_pins(pins@, n as int),
            below(drawn@, pins@.len() as int),
        decreases pins.len() - n,
    {
        if !pins[n].hidden {
            drawn.push(n);
        }
        n = n + 1;
    }
    let after = |a: usize, c: usize| -> (r: bool)
        requires
            a < pins@.len(),
            c < pins@.len(),
        ensures
            r == (natural_order(pins@[a as int].number@, pins@[c as int].number@) > 0),
        { natural_compare(pins[a].number.show().as_str(), pins[c].number.show().as_str()) > 0 };
    let order: Vec<usize> = sort_by(&drawn, after, Ghost(pin_behind(pins@)));
    proof {
        lemma_sorted_items(drawn@, pin_behind(pins@), |i: usize| i < pins@.len());
        assert forall|i: int| 0 <= i < order@.len() implies #[trigger] order@[i] < pins@.len() by {
            assert((|i: usize| i < pins@.len())(order@[i]));
        }
    }
    order
}

/// The nets of a component, in the natural order of its pins.
pub fn placed_net_indices(b: &Board, pi: usize) -> (r: Vec<usize>)
    requires
        b.wf(),
        pi < b.placed@.len(),
    ensures
        r@ == nets_of(b@, pi as int),
        below(r@, b.nets@.len() as int),
{
    let pins: &[PinGeom] = &b.design.comps[b.placed[pi].comp].geom.pins;
    let order: Vec<usize> = order_pins(pins);
    let mut out: Vec<usize> = Vec::new();
    let mut n: usize = 0;
    while n < order.len()
        invariant
            n <= order.len(),
            b.wf(),
            pi < b.placed@.len(),
            pins@ == geom_of(*b.design, b.placed@[pi as int]).pins@,
            below(order@, pins@.len() as int),
            out@ == nets_along(b@, pi as int, order@, n as int),
            below(out@, b.nets@.len() as int),
        decreases order.len() - n,
    {
        match find_pin_net(b.nets, pi, &pins[order[n]].number.show()) {
            Some(sn) => {
                if !list_includes(&out, sn) {
                    out.push(sn);
                }
            },
            None => {},
        }
        n = n + 1;
    }
    out
}

// ---------------------------------------------------------------- anchors

/// The component goes by this name: its designator, the end of its path, or the path's tail.
pub open spec fn goes_by(c: Comp, name: Seq<char>) -> bool {
    ||| c.refdes@ == name
    ||| c.path@.len() > 0 && c.path@.last()@ == name
    ||| {
        let cut = c.path_key@.len() - name.len();
        cut >= 1 && c.path_key@[cut - 1] == '.' && holds_at(c.path_key@, name, cut)
    }
}

fn does_go_by(c: &Comp, name: &String) -> (r: bool)
    ensures
        r == goes_by(*c, name@),
{
    if c.refdes == *name {
        return true;
    }
    if c.path.len() > 0 && c.path[c.path.len() - 1] == *name {
        return true;
    }
    let key: Vec<char> = chars_of(c.path_key.show().as_str());
    let wanted: Vec<char> = chars_of(name.as_str());
    if key.len() <= wanted.len() {
        return false;
    }
    let cut: usize = key.len() - wanted.len();
    key[cut - 1] == '.' && has_at(&key, &wanted, cut)
}

/// The first placed component, from `i` on, that goes by the name.
pub open spec fn first_named(b: BoardView, name: Seq<char>, i: int) -> Option<int>
    decreases b.placed.len() - i,
{
    if i < 0 || i >= b.placed.len() {
        None
    } else if goes_by(b.design.comps@[b.placed[i].comp as int], name) {
        Some(i)
    } else {
        first_named(b, name, i + 1)
    }
}

fn find_named(b: &Board, name: &String) -> (r: Option<usize>)
    requires
        b.wf(),
    ensures
        match r {
            Some(k) => first_named(b@, name@, 0) == Some(k as int) && k < b.placed@.len(),
            None => first_named(b@, name@, 0) is None,
        },
{
    let mut i: usize = 0;
    while i < b.placed.len()
        invariant
            i <= b.placed.len(),
            b.wf(),
            first_named(b@, name@, 0) == first_named(b@, name@, i as int),
        decreases b.placed.len() - i,
    {
        if does_go_by(&b.design.comps[b.placed[i].comp], name) {
            return Some(i);
        }
        i = i + 1;
    }
    None
}

/// Others may be placed around a component of this role.
pub open spec fn is_major(role: Role) -> bool {
    !role.spec_is_satellite() && role != Role::Crystal
}

pub open spec fn pins_of(b: BoardView, pi: int) -> usize {
    b.design.comps@[b.placed[pi].comp as int].visible_pins
}

pub open spec fn refdes_of(b: BoardView, pi: int) -> Seq<char> {
    b.design.comps@[b.placed[pi].comp as int].refdes@
}

/// `o` makes a better anchor than `cur`: it has more pins, or comes first by name.
pub open spec fn better_anchor(b: BoardView, o: int, cur: int) -> bool {
    pins_of(b, o) > pins_of(b, cur) || (pins_of(b, o) == pins_of(b, cur) && natural_order(
        refdes_of(b, o),
        refdes_of(b, cur),
    ) < 0)
}

fn is_better_anchor(b: &Board, o: usize, cur: usize) -> (r: bool)
    requires
        b.wf(),
        o < b.placed@.len(),
        cur < b.placed@.len(),
    ensures
        r == better_anchor(b@, o as int, cur as int),
{
    let x: &Comp = &b.design.comps[b.placed[o].comp];
    let y: &Comp = &b.design.comps[b.placed[cur].comp];
    x.visible_pins > y.visible_pins || (x.visible_pins == y.visible_pins && natural_compare(
        x.refdes.as_str(),
        y.refdes.as_str(),
    ) < 0)
}

/// The best anchor among `best` and the first `n` endpoints of the net; where `all`, it is on
/// every signal net of the list.
pub open spec fn anchor_on_net(
    b: BoardView,
    pi: int,
    nets: Seq<usize>,
    all: bool,
    net: SheetNet,
    best: Option<usize>,
    n: int,
) -> Option<usize>
    decreases n,
{
    if n <= 0 || n > net.endpoints@.len() {
        best
    } else {
        let before = anchor_on_net(b, pi, nets, all, net, best, n - 1);
        let o = net.endpoints@[n - 1].placed;
        if o == pi || !is_major(b.placed[o as int].role) || (all && !on_all_signals(
            b,
            nets,
            o as int,
        )) {
            before
        } else {
            match before {
                None => Some(o),
                Some(cur) => if better_anchor(b, o as int, cur as int) {
                    Some(o)
                } else {
                    before
                },
            }
        }
    }
}

/// The best anchor on those of the first `n` nets that are rails, or that are not; where `all`, it
/// is on every signal net of the list.
pub open spec fn anchor_on_nets(
    b: BoardView,
    pi: int,
    nets: Seq<usize>,
    rails: bool,
    all: bool,
    n: int,
) -> Option<usize>
    decreases n,
{
    if n <= 0 || n > nets.len() {
        None
    } else {
        let before = anchor_on_nets(b, pi, nets, rails, all, n - 1);
        let net = b.nets[nets[n - 1] as int];
        if (net.class != NetClass::Signal) == rails {
            anchor_on_net(b, pi, nets, all, net, before, net.endpoints@.len() as int)
        } else {
            before
        }
    }
}

/// Some net of the list is of the class.
pub open spec fn has_class(b: BoardView, nets: Seq<usize>, class: NetClass) -> bool {
    exists|i: int| 0 <= i < nets.len() && b.nets[#[trigger] nets[i] as int].class == class
}

/// The number of signal nets among the first `n`.
pub open spec fn signal_count(b: BoardView, nets: Seq<usize>, n: int) -> nat
    decreases n,
{
    if n <= 0 || n > nets.len() {
        0
    } else {
        signal_count(b, nets, n - 1) + if b.nets[nets[n - 1] as int].class == NetClass::Signal {
            1nat
        } else {
            0
        }
    }
}

pub open spec fn net_reaches(net: SheetNet, m: int) -> bool {
    exists|e: int| 0 <= e < net.endpoints@.len() && (#[trigger] net.endpoints@[e]).placed == m
}

/// Every signal net of the list reaches the component.
pub open spec fn on_all_signals(b: BoardView, nets: Seq<usize>, m: int) -> bool {
    forall|i: int|
        0 <= i < nets.len() && b.nets[#[trigger] nets[i] as int].class == NetClass::Signal
            ==> net_reaches(b.nets[nets[i] as int], m)
}

/// A passive part between two signals: it filters what goes into another part.
pub open spec fn is_series(b: BoardView, pi: int) -> bool {
    let nets = nets_of(b, pi);
    b.placed[pi].role == Role::Passive && !has_class(b, nets, NetClass::Ground) && !has_class(
        b,
        nets,
        NetClass::Power,
    )
}

/// The anchor that the role of a two-pin component asks for: rails lead capacitors to their
/// anchor, signals lead the others, and a crystal belongs to what both of its signals reach. A
/// part between two signals belongs to the part that it feeds, where that has pins enough.
pub open spec fn anchor_by_role(b: BoardView, pi: int) -> Option<usize> {
    let role = b.placed[pi].role;
    let nets = nets_of(b, pi);
    let rails = role == Role::Decoupling || role == Role::Bulk;
    if !rails && role != Role::Pull && role != Role::Led && role != Role::Passive && role
        != Role::Crystal {
        None
    } else if pins_of(b, pi) != 2 {
        None
    } else {
        let best = anchor_on_nets(
            b,
            pi,
            nets,
            rails,
            role == Role::Crystal,
            nets.len() as int,
        );
        if is_series(b, pi) {
            match best {
                Some(m) => if pins_of(b, m as int) >= b.cfg.input_chain_min_pins {
                    best
                } else {
                    None
                },
                None => None,
            }
        } else if role == Role::Crystal && signal_count(b, nets, nets.len() as int) != 2 {
            None
        } else {
            best
        }
    }
}

fn find_on_net(
    b: &Board,
    pi: usize,
    nets: &Vec<usize>,
    all: bool,
    net: &SheetNet,
    best: Option<usize>,
) -> (r: Option<usize>)
    requires
        b.wf(),
        below(nets@, b.nets@.len() as int),
        forall|e: int|
            0 <= e < net.endpoints@.len() ==> (#[trigger] net.endpoints@[e]).placed
                < b.placed@.len(),
        best matches Some(k) ==> k < b.placed@.len(),
    ensures
        r == anchor_on_net(
            b@,
            pi as int,
            nets@,
            all,
            *net,
            best,
            net.endpoints@.len() as int,
        ),
        r matches Some(k) ==> k < b.placed@.len(),
{
    let mut best: Option<usize> = best;
    let ghost b0 = best;
    let mut n: usize = 0;
    while n < net.endpoints.len()
        invariant
            n <= net.endpoints.len(),
            b.wf(),
            below(nets@, b.nets@.len() as int),
            forall|e: int|
                0 <= e < net.endpoints@.len() ==> (#[trigger] net.endpoints@[e]).placed
                    < b.placed@.len(),
            best == anchor_on_net(b@, pi as int, nets@, all, *net, b0, n as int),
            best matches Some(k) ==> k < b.placed@.len(),
        decreases net.endpoints.len() - n,
    {
        let o: usize = net.endpoints[n].placed;
        let role: Role = b.placed[o].role;
        if o != pi && !role.is_satellite() && role != Role::Crystal && (!all || is_on_all_signals(
            b,
            nets,
            o,
        )) {
            let take: bool = match best {
                None => true,
                Some(cur) => is_better_anchor(b, o, cur),
            };
            if take {
                best = Some(o);
            }
        }
        n = n + 1;
    }
    best
}

pub(crate) fn holds_class(b: &Board, nets: &Vec<usize>, class: NetClass) -> (r: bool)
    requires
        below(nets@, b.nets@.len() as int),
    ensures
        r == has_class(b@, nets@, class),
{
    let mut i: usize = 0;
    while i < nets.len()
        invariant
            i <= nets.len(),
            below(nets@, b.nets@.len() as int),
            forall|k: int| 0 <= k < i ==> b@.nets[#[trigger] nets@[k] as int].class != class,
        decreases nets.len() - i,
    {
        if b.nets[nets[i]].class == class {
            return true;
        }
        i = i + 1;
    }
    false
}

pub(crate) fn reaches(net: &SheetNet, m: usize) -> (r: bool)
    ensures
        r == net_reaches(*net, m as int),
{
    let mut e: usize = 0;
    while e < net.endpoints.len()
        invariant
            e <= net.endpoints.len(),
            forall|k: int| 0 <= k < e ==> (#[trigger] net.endpoints@[k]).placed != m,
        decreases net.endpoints.len() - e,
    {
        if net.endpoints[e].placed == m {
            return true;
        }
        e = e + 1;
    }
    false
}

fn is_on_all_signals(b: &Board, nets: &Vec<usize>, m: usize) -> (r: bool)
    requires
        below(nets@, b.nets@.len() as int),
    ensures
        r == on_all_signals(b@, nets@, m as int),
{
    let mut i: usize = 0;
    while i < nets.len()
        invariant
            i <= nets.len(),
            below(nets@, b.nets@.len() as int),
            forall|k: int|
                0 <= k < i && b@.nets[#[trigger] nets@[k] as int].class == NetClass::Signal
                    ==> net_reaches(b@.nets[nets@[k] as int], m as int),
        decreases nets.len() - i,
    {
        if b.nets[nets[i]].class == NetClass::Signal && !reaches(&b.nets[nets[i]], m) {
            return false;
        }
        i = i + 1;
    }
    true
}

fn find_by_role(b: &Board, pi: usize) -> (r: Option<usize>)
    requires
        b.wf(),
        pi < b.placed@.len(),
    ensures
        r == anchor_by_role(b@, pi as int),
        r matches Some(k) ==> k < b.placed@.len(),
{
    let role: Role = b.placed[pi].role;
    let rails: bool = role == Role::Decoupling || role == Role::Bulk;
    if !rails && role != Role::Pull && role != Role::Led && role != Role::Passive && role
        != Role::Crystal {
        return None;
    }
    if b.design.comps[b.placed[pi].comp].visible_pins != 2 {
        return None;
    }
    let nets: Vec<usize> = placed_net_indices(b, pi);
    let series: bool = role == Role::Passive && !holds_class(b, &nets, NetClass::Ground)
        && !holds_class(b, &nets, NetClass::Power);
    let both: bool = role == Role::Crystal;
    let mut best: Option<usize> = None;
    let mut signals: usize = 0;
    let mut n: usize = 0;
    while n < nets.len()
        invariant
            n <= nets.len(),
            b.wf(),
            pi < b.placed@.len(),
            below(nets@, b.nets@.len() as int),
            best == anchor_on_nets(b@, pi as int, nets@, rails, both, n as int),
            best matches Some(k) ==> k < b.placed@.len(),
            signals == signal_count(b@, nets@, n as int),
            signals <= n,
        decreases nets.len() - n,
    {
        let net: &SheetNet = &b.nets[nets[n]];
        let ghost sn = nets@[n as int] as int;
        proof {
            assert forall|e: int| 0 <= e < net.endpoints@.len() implies (
            #[trigger] net.endpoints@[e]).placed < b.placed@.len() by {
                assert(b.nets@[sn].endpoints@[e].placed < b.placed@.len());
            }
        }
        if (net.class != NetClass::Signal) == rails {
            best = find_on_net(b, pi, &nets, both, net, best);
        }
        if net.class == NetClass::Signal {
            signals = signals + 1;
        }
        n = n + 1;
    }
    if series {
        return match best {
            Some(m) => if b.design.comps[b.placed[m].comp].visible_pins
                >= b.cfg.input_chain_min_pins {
                best
            } else {
                None
            },
            None => None,
        };
    }
    if both && signals != 2 {
        None
    } else {
        best
    }
}

/// The first endpoint of the net, from `i` on, on the component.
pub open spec fn end_on(net: SheetNet, m: int, i: int) -> Option<int>
    decreases net.endpoints@.len() - i,
{
    if i < 0 || i >= net.endpoints@.len() {
        None
    } else if net.endpoints@[i].placed == m {
        Some(i)
    } else {
        end_on(net, m, i + 1)
    }
}

/// Where the pin of component `m` looks that the first shared signal, from number `k` on, ends at.
pub open spec fn fed_pin(b: BoardView, nets: Seq<usize>, m: int, k: int) -> Option<Point>
    decreases nets.len() - k,
{
    if k < 0 || k >= nets.len() {
        None
    } else {
        let net = b.nets[nets[k] as int];
        let here = match end_on(net, m, 0) {
            Some(e) => pad_outward(b.design, b.placed[m], net.endpoints@[e].pad@),
            None => None,
        };
        if net.class == NetClass::Signal && here is Some {
            here
        } else {
            fed_pin(b, nets, m, k + 1)
        }
    }
}

/// The side that a direction points to.
pub open spec fn side_towards(dir: Point) -> Side {
    if dir.x < 0 {
        Side::Left
    } else if dir.x > 0 {
        Side::Right
    } else if dir.y < 0 {
        Side::Above
    } else {
        Side::Below
    }
}

/// The side of its anchor that a component stands on: a part between two signals stands where
/// the pin looks that it feeds.
pub open spec fn side_at(b: BoardView, pi: int, m: int) -> Side {
    match fed_pin(b, nets_of(b, pi), m, 0) {
        Some(dir) => if is_series(b, pi) {
            side_towards(dir)
        } else {
            b.placed[pi].side
        },
        None => b.placed[pi].side,
    }
}

fn find_fed_pin(b: &Board, nets: &Vec<usize>, m: usize) -> (r: Option<Point>)
    requires
        b.wf(),
        m < b.placed@.len(),
        below(nets@, b.nets@.len() as int),
    ensures
        r == fed_pin(b@, nets@, m as int, 0),
{
    let mut k: usize = 0;
    while k < nets.len()
        invariant
            k <= nets.len(),
            b.wf(),
            m < b.placed@.len(),
            below(nets@, b.nets@.len() as int),
            fed_pin(b@, nets@, m as int, 0) == fed_pin(b@, nets@, m as int, k as int),
        decreases nets.len() - k,
    {
        let net: &SheetNet = &b.nets[nets[k]];
        if net.class == NetClass::Signal {
            let mut e: usize = 0;
            while e < net.endpoints.len() && net.endpoints[e].placed != m
                invariant
                    e <= net.endpoints.len(),
                    end_on(*net, m as int, 0) == end_on(*net, m as int, e as int),
                decreases net.endpoints.len() - e,
            {
                e = e + 1;
            }
            if e < net.endpoints.len() {
                let here: Option<Point> = pad_dir(
                    b.design,
                    &b.placed[m],
                    &net.endpoints[e].pad,
                );
                if here.is_some() {
                    return here;
                }
            }
        }
        k = k + 1;
    }
    None
}

fn find_side(b: &Board, pi: usize, m: usize) -> (r: Side)
    requires
        b.wf(),
        pi < b.placed@.len(),
        m < b.placed@.len(),
    ensures
        r == side_at(b@, pi as int, m as int),
{
    let own: Side = b.placed[pi].side;
    let nets: Vec<usize> = placed_net_indices(b, pi);
    if b.placed[pi].role != Role::Passive || holds_class(b, &nets, NetClass::Ground)
        || holds_class(b, &nets, NetClass::Power) {
        return own;
    }
    match find_fed_pin(b, &nets, m) {
        Some(dir) => if dir.x < 0 {
            Side::Left
        } else if dir.x > 0 {
            Side::Right
        } else if dir.y < 0 {
            Side::Above
        } else {
            Side::Below
        },
        None => own,
    }
}

/// The sheet has a utility band: it is wanted, and some part has pins enough for a real one.
pub open spec fn has_band(b: BoardView) -> bool {
    b.cfg.relegate_utility && exists|i: int|
        0 <= i < b.placed.len() && #[trigger] pins_of(b, i) >= b.cfg.input_chain_min_pins
}

/// Another component asks to be placed at this one.
pub open spec fn is_wanted(b: BoardView, pi: int) -> bool {
    exists|i: int| 0 <= i < b.placed.len() && #[trigger] asked_anchor(b, i) == Some(pi)
}

/// A capacitor between rails that nobody placed goes into the utility band.
pub open spec fn goes_to_band(b: BoardView, pi: int) -> bool {
    let p = b.placed[pi];
    has_band(b) && !p.pinned && (p.role == Role::Decoupling || p.role == Role::Bulk)
        && asked_anchor(b, pi) is None && !is_wanted(b, pi)
}

/// The component with its anchor: the one that it asks for, or the one that its role finds.
pub open spec fn anchored(b: BoardView, pi: int) -> PlacedComp {
    let p = b.placed[pi];
    let c = b.design.comps@[p.comp as int];
    if goes_to_band(b, pi) {
        PlacedComp { relegated: true, ..p }
    } else {
        match asked_anchor(b, pi) {
            Some(t) => PlacedComp {
                anchor: Some(t as usize),
                side: match c.side_attr {
                    Some(side) => side,
                    None => p.side,
                },
                ..p
            },
            None => match anchor_by_role(b, pi) {
                Some(t) => PlacedComp {
                    anchor: Some(t),
                    side: side_at(b, pi, t as int),
                    ..p
                },
                None => p,
            },
        }
    }
}

/// The other component that a component asks to be placed at.
pub open spec fn asked_anchor(b: BoardView, pi: int) -> Option<int> {
    match b.design.comps@[b.placed[pi].comp as int].anchor_attr {
        Some(name) => match first_named(b, name@, 0) {
            Some(t) => if t != pi {
                Some(t)
            } else {
                None
            },
            None => None,
        },
        None => None,
    }
}

/// The remarks on the first `n` components whose anchor is not on the sheet.
pub open spec fn lost_anchors(b: BoardView, n: int) -> Seq<Warning>
    decreases n,
{
    if n <= 0 || n > b.placed.len() {
        Seq::empty()
    } else {
        let c = b.design.comps@[b.placed[n - 1].comp as int];
        match c.anchor_attr {
            Some(name) => if asked_anchor(b, n - 1) is None {
                lost_anchors(b, n - 1).push(
                    Warning::AnchorNotFound { anchor: name, refdes: c.refdes },
                )
            } else {
                lost_anchors(b, n - 1)
            },
            None => lost_anchors(b, n - 1),
        }
    }
}

pub open spec fn all_anchored(b: BoardView) -> Seq<PlacedComp> {
    Seq::new(b.placed.len(), |i: int| anchored(b, i))
}

/// Anchors are placed components.
pub open spec fn anchors_wf(placed: Seq<PlacedComp>) -> bool {
    forall|i: int|
        0 <= i < placed.len() ==> ((#[trigger] placed[i]).anchor matches Some(a) ==> a
            < placed.len())
}

/// The anchors that components ask for.
pub open spec fn asked_anchors(b: BoardView) -> Seq<Option<usize>> {
    Seq::new(
        b.placed.len(),
        |i: int|
            match asked_anchor(b, i) {
                Some(t) => Some(t as usize),
                None => None,
            },
    )
}

/// Does the sheet have a utility band?
pub fn find_band(b: &Board) -> (r: bool)
    requires
        b.wf(),
    ensures
        r == has_band(b@),
{
    if !b.cfg.relegate_utility {
        return false;
    }
    let mut i: usize = 0;
    while i < b.placed.len()
        invariant
            i <= b.placed.len(),
            b.wf(),
            b.cfg.relegate_utility,
            forall|k: int| 0 <= k < i ==> #[trigger] pins_of(b@, k) < b.cfg.input_chain_min_pins,
        decreases b.placed.len() - i,
    {
        if b.design.comps[b.placed[i].comp].visible_pins >= b.cfg.input_chain_min_pins {
            proof {
                assert(pins_of(b@, i as int) >= b.cfg.input_chain_min_pins);
            }
            return true;
        }
        i = i + 1;
    }
    false
}

fn ask_anchors(b: &Board, warnings: &mut Vec<Warning>) -> (r: Vec<Option<usize>>)
    requires
        b.wf(),
    ensures
        r@ == asked_anchors(b@),
        forall|i: int|
            0 <= i < r@.len() ==> (#[trigger] r@[i] matches Some(a) ==> a < b.placed@.len()),
        final(warnings)@ == old(warnings)@ + lost_anchors(b@, b.placed@.len() as int),
{
    let mut out: Vec<Option<usize>> = Vec::new();
    let ghost w0 = warnings@;
    let mut n: usize = 0;
    proof {
        assert(w0 =~= w0 + lost_anchors(b@, 0));
    }
    while n < b.placed.len()
        invariant
            n <= b.placed.len(),
            b.wf(),
            out@ =~= asked_anchors(b@).take(n as int),
            forall|i: int|
                0 <= i < n ==> (#[trigger] out@[i] matches Some(a) ==> a < b.placed@.len()),
            warnings@ == w0 + lost_anchors(b@, n as int),
        decreases b.placed.len() - n,
    {
        let c: &Comp = &b.design.comps[b.placed[n].comp];
        let mut asked: Option<usize> = None;
        match &c.anchor_attr {
            Some(name) => {
                match find_named(b, name) {
                    Some(t) => {
                        if t != n {
                            asked = Some(t);
                        }
                    },
                    None => {},
                }
                if asked.is_none() {
                    warnings.push(
                        Warning::AnchorNotFound { anchor: name.clone(), refdes: c.refdes.clone() },
                    );
                }
            },
            None => {},
        }
        out.push(asked);
        n = n + 1;
        proof {
            assert(warnings@ =~= w0 + lost_anchors(b@, n as int));
        }
    }
    proof {
        assert(out@ =~= asked_anchors(b@));
    }
    out
}

fn find_wanted(asked: &Vec<Option<usize>>, pi: usize, Ghost(b): Ghost<BoardView>) -> (r: bool)
    requires
        asked@ == asked_anchors(b),
        b.placed.len() <= usize::MAX,
        pi < b.placed.len(),
    ensures
        r == is_wanted(b, pi as int),
{
    let mut i: usize = 0;
    while i < asked.len()
        invariant
            i <= asked.len(),
            asked@ == asked_anchors(b),
            b.placed.len() <= usize::MAX,
            pi < b.placed.len(),
            forall|k: int| 0 <= k < i ==> #[trigger] asked_anchor(b, k) != Some(pi as int),
        decreases asked.len() - i,
    {
        proof {
            assert(asked@[i as int] == asked_anchors(b)[i as int]);
            lemma_named_below(b, i as int);
        }
        match asked[i] {
            Some(t) => {
                if t == pi {
                    return true;
                }
            },
            None => {},
        }
        i = i + 1;
    }
    false
}

proof fn lemma_first_named(b: BoardView, name: Seq<char>, i: int)
    ensures
        first_named(b, name, i) matches Some(t) ==> 0 <= t < b.placed.len(),
    decreases b.placed.len() - i,
{
    if 0 <= i < b.placed.len() && !goes_by(b.design.comps@[b.placed[i].comp as int], name) {
        lemma_first_named(b, name, i + 1);
    }
}

proof fn lemma_named_below(b: BoardView, pi: int)
    ensures
        asked_anchor(b, pi) matches Some(t) ==> 0 <= t < b.placed.len(),
{
    match b.design.comps@[b.placed[pi].comp as int].anchor_attr {
        Some(name) => lemma_first_named(b, name@, 0),
        None => {},
    }
}

/// Find the anchor of every component, and what goes into the utility band.
pub fn resolve_anchors(b: &Board, warnings: &mut Vec<Warning>) -> (r: Vec<PlacedComp>)
    requires
        b.wf(),
        anchors_wf(b.placed@),
    ensures
        r@ == all_anchored(b@),
        anchors_wf(r@),
        final(warnings)@ == old(warnings)@ + lost_anchors(b@, b.placed@.len() as int),
{
    let band: bool = find_band(b);
    let asked: Vec<Option<usize>> = ask_anchors(b, warnings);
    let mut out: Vec<PlacedComp> = Vec::new();
    let count: usize = b.placed.len();
    let mut n: usize = 0;
    while n < count
        invariant
            n <= count,
            count == b.placed@.len(),
            b.wf(),
            anchors_wf(b.placed@),
            band == has_band(b@),
            asked@ == asked_anchors(b@),
            asked@.len() == b.placed@.len(),
            forall|i: int|
                0 <= i < asked@.len() ==> (#[trigger] asked@[i] matches Some(a) ==> a
                    < b.placed@.len()),
            out@ =~= all_anchored(b@).take(n as int),
            forall|i: int|
                0 <= i < n ==> ((#[trigger] out@[i]).anchor matches Some(a) ==> a
                    < b.placed@.len()),
        decreases count - n,
    {
        let mut p: PlacedComp = b.placed[n];
        let c: &Comp = &b.design.comps[p.comp];
        proof {
            lemma_named_below(b@, n as int);
            assert(asked@[n as int] == asked_anchors(b@)[n as int]);
            assert(b.placed@[n as int].anchor matches Some(a) ==> a < b.placed@.len());
        }
        let cap: bool = p.role == Role::Decoupling || p.role == Role::Bulk;
        if band && !p.pinned && cap && asked[n].is_none() && !find_wanted(&asked, n, Ghost(b@)) {
            p.relegated = true;
        } else {
            match asked[n] {
                Some(t) => {
                    p.anchor = Some(t);
                    match c.side_attr {
                        Some(side) => {
                            p.side = side;
                        },
                        None => {},
                    }
                },
                None => {
                    match find_by_role(b, n) {
                        Some(t) => {
                            p.side = find_side(b, n, t);
                            p.anchor = Some(t);
                        },
                        None => {},
                    }
                },
            }
        }
        proof {
            assert(p == anchored(b@, n as int));
        }
        out.push(p);
        n = n + 1;
    }
    proof {
        assert(out@ =~= all_anchored(b@));
    }
    out
}

// ---------------------------------------------------------------- groups

/// Where the chain of anchors from component `i` ends, if it ends after at most `steps` steps.
pub open spec fn chain_end(placed: Seq<PlacedComp>, i: int, steps: nat) -> Option<usize>
    decreases steps,
{
    match placed[i].anchor {
        None => Some(i as usize),
        Some(a) => if steps == 0 {
            None
        } else {
            chain_end(placed, a as int, (steps - 1) as nat)
        },
    }
}

/// Where the chain of anchors from component `i` ends; nowhere if it comes back to a component.
pub open spec fn chain_root(placed: Seq<PlacedComp>, i: int) -> Option<usize> {
    chain_end(placed, i, placed.len())
}

/// Component number `k` of the chain from component `i`.
spec fn link(placed: Seq<PlacedComp>, i: int, k: nat) -> int
    decreases k,
{
    if k == 0 {
        i
    } else {
        match placed[link(placed, i, (k - 1) as nat)].anchor {
            Some(a) => a as int,
            None => link(placed, i, (k - 1) as nat),
        }
    }
}

/// With more steps a chain ends where it ended.
proof fn lemma_chain_longer(placed: Seq<PlacedComp>, i: int, n: nat, m: nat)
    requires
        chain_end(placed, i, n) is Some,
        n <= m,
    ensures
        chain_end(placed, i, m) == chain_end(placed, i, n),
    decreases n,
{
    if let Some(a) = placed[i].anchor {
        lemma_chain_longer(placed, a as int, (n - 1) as nat, (m - 1) as nat);
    }
}

/// Where a chain ends there is a component of the sheet without an anchor.
proof fn lemma_chain_end(placed: Seq<PlacedComp>, i: int, n: nat)
    requires
        anchors_wf(placed),
        placed.len() <= usize::MAX,
        0 <= i < placed.len(),
        chain_end(placed, i, n) is Some,
    ensures
        chain_end(placed, i, n)->0 < placed.len(),
        placed[chain_end(placed, i, n)->0 as int].anchor is None,
    decreases n,
{
    if let Some(a) = placed[i].anchor {
        assert(placed[i].anchor == Some(a));
        lemma_chain_end(placed, a as int, (n - 1) as nat);
    }
}

/// A chain that does not end within `n` steps goes on at each of its first links, and from link
/// `k` on it does not end within the steps that are left.
proof fn lemma_links(placed: Seq<PlacedComp>, i: int, n: nat, k: nat)
    requires
        anchors_wf(placed),
        0 <= i < placed.len(),
        chain_end(placed, i, n) is None,
        k <= n,
    ensures
        0 <= link(placed, i, k) < placed.len(),
        placed[link(placed, i, k)].anchor is Some,
        chain_end(placed, link(placed, i, k), (n - k) as nat) is None,
    decreases k,
{
    if k > 0 {
        lemma_links(placed, i, n, (k - 1) as nat);
        let p = link(placed, i, (k - 1) as nat);
        assert(placed[p].anchor is Some);
        assert(placed[p].anchor->0 < placed.len());
    }
}

/// From each of the first links of a chain, it ends where it ends from its start.
proof fn lemma_rest_of_chain(placed: Seq<PlacedComp>, i: int, n: nat, k: nat)
    requires
        chain_end(placed, i, n) is Some,
        k <= n,
    ensures
        chain_end(placed, link(placed, i, k), (n - k) as nat) == chain_end(placed, i, n),
    decreases k,
{
    if k > 0 {
        lemma_rest_of_chain(placed, i, n, (k - 1) as nat);
        let p = link(placed, i, (k - 1) as nat);
        if placed[p].anchor is None {
            lemma_chain_longer(placed, p, (n - k) as nat, (n - k + 1) as nat);
        }
    }
}

/// A chain that ends somewhere has a last step: with one step less it does not end.
proof fn lemma_last_step(placed: Seq<PlacedComp>, i: int, n: nat) -> (m: nat)
    requires
        chain_end(placed, i, n) is Some,
    ensures
        m <= n,
        chain_end(placed, i, m) == chain_end(placed, i, n),
        m > 0 ==> chain_end(placed, i, (m - 1) as nat) is None,
    decreases n,
{
    if n == 0 || chain_end(placed, i, (n - 1) as nat) is None {
        n
    } else {
        lemma_chain_longer(placed, i, (n - 1) as nat, n);
        lemma_last_step(placed, i, (n - 1) as nat)
    }
}

/// A chain that ends at all ends after at most as many steps as there are components: none comes
/// twice on the way.
proof fn lemma_chain_ends(placed: Seq<PlacedComp>, i: int, n: nat)
    requires
        anchors_wf(placed),
        0 <= i < placed.len(),
        chain_end(placed, i, n) is Some,
    ensures
        chain_root(placed, i) == chain_end(placed, i, n),
{
    let m = lemma_last_step(placed, i, n);
    if m <= placed.len() {
        lemma_chain_longer(placed, i, m, placed.len());
    } else {
        let top = (m - 1) as nat;
        let s = Seq::new(m, |k: int| link(placed, i, k as nat));
        assert forall|k: int| 0 <= k < s.len() implies 0 <= #[trigger] s[k] < placed.len() by {
            lemma_links(placed, i, top, k as nat);
        }
        assert forall|x: int, y: int| 0 <= x < s.len() && 0 <= y < s.len() && x != y implies s[x]
            != s[y] by {
            let (a, b) = if x < y {
                (x, y)
            } else {
                (y, x)
            };
            if s[a] == s[b] {
                lemma_rest_of_chain(placed, i, m, a as nat);
                lemma_rest_of_chain(placed, i, m, b as nat);
                lemma_links(placed, i, top, a as nat);
                let p = s[a];
                assert(chain_end(placed, p, (m - b) as nat) is Some);
                lemma_chain_longer(placed, p, (m - b) as nat, (top - a) as nat);
            }
        }
        let all = vstd::set_lib::set_int_range(0, placed.len() as int);
        vstd::set_lib::lemma_int_range(0, placed.len() as int);
        s.unique_seq_to_set();
        assert(s.to_set().subset_of(all));
        vstd::set_lib::lemma_len_subset(s.to_set(), all);
        assert(false);
    }
}

/// The state of the search for the ends of the anchor chains: the ends found, and the
/// components that still wait.
pub struct Roots {
    pub root: Seq<Option<usize>>,
    pub waiting: Seq<usize>,
}

/// At most `turns` times: the first that waits takes the root of its anchor, or waits on.
pub open spec fn follow(placed: Seq<PlacedComp>, s: Roots, turns: nat) -> Roots
    decreases turns,
{
    if turns == 0 || s.waiting.len() == 0 {
        s
    } else {
        let pi = s.waiting[0];
        let rest = s.waiting.remove(0);
        match placed[pi as int].anchor {
            Some(a) => match s.root[a as int] {
                Some(r) => follow(
                    placed,
                    Roots { root: s.root.update(pi as int, Some(r)), waiting: rest },
                    (turns - 1) as nat,
                ),
                None => follow(
                    placed,
                    Roots { root: s.root, waiting: rest.push(pi) },
                    (turns - 1) as nat,
                ),
            },
            None => s,
        }
    }
}

/// Those of the first `n` components that have an anchor.
pub open spec fn with_anchor(placed: Seq<PlacedComp>, n: int) -> Seq<usize>
    decreases n,
{
    if n <= 0 || n > placed.len() {
        Seq::empty()
    } else if placed[n - 1].anchor is Some {
        with_anchor(placed, n - 1).push((n - 1) as usize)
    } else {
        with_anchor(placed, n - 1)
    }
}

/// A component without an anchor is its own root.
pub open spec fn own_roots(placed: Seq<PlacedComp>) -> Seq<Option<usize>> {
    Seq::new(
        placed.len(),
        |i: int|
            if placed[i].anchor is None {
                Some(i as usize)
            } else {
                None
            },
    )
}

pub open spec fn followed(placed: Seq<PlacedComp>) -> Roots {
    let waiting = with_anchor(placed, placed.len() as int);
    follow(
        placed,
        Roots { root: own_roots(placed), waiting },
        (waiting.len() * 3 + 10) as nat,
    )
}

/// The component with its group: one whose chain never ends stands alone.
pub open spec fn grouped_one(placed: Seq<PlacedComp>, i: int) -> PlacedComp {
    match chain_root(placed, i) {
        Some(r) => PlacedComp { group_root: r, ..placed[i] },
        None => PlacedComp { anchor: None, group_root: i as usize, ..placed[i] },
    }
}

pub open spec fn grouped(placed: Seq<PlacedComp>) -> Seq<PlacedComp> {
    Seq::new(placed.len(), |i: int| grouped_one(placed, i))
}

/// The remarks on those of the first `n` waiting components whose chain never ends.
pub open spec fn lost_chains(b: BoardView, waiting: Seq<usize>, n: int) -> Seq<Warning>
    decreases n,
{
    if n <= 0 || n > waiting.len() {
        Seq::empty()
    } else if chain_root(b.placed, waiting[n - 1] as int) is Some {
        lost_chains(b, waiting, n - 1)
    } else {
        lost_chains(b, waiting, n - 1).push(
            Warning::AnchorChain {
                refdes: b.design.comps@[b.placed[waiting[n - 1] as int].comp as int].refdes,
            },
        )
    }
}

/// A root is found exactly for what does not wait; it is where the chain ends.
pub open spec fn root_sound(placed: Seq<PlacedComp>, s: Roots, i: int) -> bool {
    match s.root[i] {
        None => s.waiting.contains(i as usize) && placed[i].anchor is Some,
        Some(r) => {
            &&& r < placed.len()
            &&& chain_root(placed, i) == Some(r)
        },
    }
}

pub open spec fn waits(placed: Seq<PlacedComp>, s: Roots, k: int) -> bool {
    let i = s.waiting[k];
    i < placed.len() && s.root[i as int] is None
}

pub open spec fn roots_follow(placed: Seq<PlacedComp>, s: Roots) -> bool {
    &&& s.root.len() == placed.len()
    &&& forall|k: int| 0 <= k < s.waiting.len() ==> #[trigger] waits(placed, s, k)
    &&& forall|i: int| 0 <= i < placed.len() ==> #[trigger] root_sound(placed, s, i)
    &&& s.waiting.no_duplicates()
}

proof fn lemma_with_anchor(placed: Seq<PlacedComp>, n: int)
    requires
        0 <= n <= placed.len(),
        placed.len() <= usize::MAX,
    ensures
        below(with_anchor(placed, n), n),
        forall|k: int|
            0 <= k < with_anchor(placed, n).len() ==> placed[#[trigger] with_anchor(
                placed,
                n,
            )[k] as int].anchor is Some,
        forall|i: usize|
            i < n && placed[i as int].anchor is Some ==> #[trigger] with_anchor(
                placed,
                n,
            ).contains(i),
        with_anchor(placed, n).no_duplicates(),
    decreases n,
{
    if n > 0 {
        lemma_with_anchor(placed, n - 1);
        let before = with_anchor(placed, n - 1);
        let now = with_anchor(placed, n);
        assert forall|i: usize| i < n && placed[i as int].anchor is Some implies #[trigger] now.contains(
        i) by {
            if i < n - 1 {
                assert(before.contains(i));
                let k = choose|k: int| 0 <= k < before.len() && before[k] == i;
                assert(now[k] == i);
            } else {
                assert(now[now.len() - 1] == i);
            }
        }
    }
}

proof fn lemma_first_roots(placed: Seq<PlacedComp>)
    requires
        anchors_wf(placed),
        placed.len() <= usize::MAX,
    ensures
        roots_follow(
            placed,
            (Roots {
                root: own_roots(placed),
                waiting: with_anchor(placed, placed.len() as int),
            }),
        ),
{
    lemma_with_anchor(placed, placed.len() as int);
    let s = Roots { root: own_roots(placed), waiting: with_anchor(placed, placed.len() as int) };
    assert forall|k: int| 0 <= k < s.waiting.len() implies #[trigger] waits(placed, s, k) by {
        assert(s.waiting[k] < placed.len());
        assert(placed[s.waiting[k] as int].anchor is Some);
    }
}

proof fn lemma_follow_step(placed: Seq<PlacedComp>, s: Roots)
    requires
        anchors_wf(placed),
        placed.len() <= usize::MAX,
        roots_follow(placed, s),
        s.waiting.len() > 0,
    ensures
        ({
            let pi = s.waiting[0];
            let a = placed[pi as int].anchor->0;
            let rest = s.waiting.remove(0);
            &&& pi < placed.len()
            &&& placed[pi as int].anchor is Some
            &&& a < placed.len()
            &&& s.root[a as int] matches Some(r) ==> roots_follow(
                placed,
                (Roots { root: s.root.update(pi as int, Some(r)), waiting: rest }),
            )
            &&& s.root[a as int] is None ==> roots_follow(
                placed,
                (Roots { root: s.root, waiting: rest.push(pi) }),
            )
        }),
{
    let pi = s.waiting[0];
    let a = placed[pi as int].anchor->0;
    let rest = s.waiting.remove(0);
    assert(waits(placed, s, 0));
    assert(root_sound(placed, s, pi as int));
    assert(placed[pi as int].anchor is Some);
    match s.root[a as int] {
        Some(r) => {
            let t = Roots { root: s.root.update(pi as int, Some(r)), waiting: rest };
            assert forall|k: int| 0 <= k < t.waiting.len() implies #[trigger] waits(
                placed,
                t,
                k,
            ) by {
                assert(waits(placed, s, k + 1));
                assert(t.waiting[k] == s.waiting[k + 1]);
                assert(s.waiting[k + 1] != s.waiting[0]);
            }
            assert(root_sound(placed, s, a as int));
            assert forall|i: int| 0 <= i < placed.len() implies #[trigger] root_sound(
                placed,
                t,
                i,
            ) by {
                assert(root_sound(placed, s, i));
                if i == pi {
                    assert(chain_end(placed, i, (placed.len() + 1) as nat) == Some(r));
                    lemma_chain_ends(placed, i, (placed.len() + 1) as nat);
                }
                if s.root[i] is None && i != pi {
                    let k = choose|k: int| 0 <= k < s.waiting.len() && s.waiting[k] == i as usize;
                    assert(rest[k - 1] == i as usize);
                }
            }
        },
        None => {
            let t = Roots { root: s.root, waiting: rest.push(pi) };
            assert forall|k: int| 0 <= k < t.waiting.len() implies #[trigger] waits(
                placed,
                t,
                k,
            ) by {
                let o = if k < rest.len() {
                    k + 1
                } else {
                    0
                };
                assert(waits(placed, s, o));
                assert(t.waiting[k] == s.waiting[o]);
            }
            assert forall|i: int| 0 <= i < placed.len() implies #[trigger] root_sound(
                placed,
                t,
                i,
            ) by {
                assert(root_sound(placed, s, i));
                if s.root[i] is None {
                    let k = choose|k: int| 0 <= k < s.waiting.len() && s.waiting[k] == i as usize;
                    let o = if k == 0 {
                        rest.len() as int
                    } else {
                        k - 1
                    };
                    assert(t.waiting[o] == i as usize);
                }
            }
            assert forall|i: int, j: int|
                0 <= i < t.waiting.len() && 0 <= j < t.waiting.len() && i != j implies t.waiting[i]
                != t.waiting[j] by {
                let x = if i < rest.len() {
                    i + 1
                } else {
                    0
                };
                let y = if j < rest.len() {
                    j + 1
                } else {
                    0
                };
                assert(t.waiting[i] == s.waiting[x]);
                assert(t.waiting[j] == s.waiting[y]);
            }
        },
    }
}

proof fn lemma_follow(placed: Seq<PlacedComp>, s: Roots, turns: nat)
    requires
        anchors_wf(placed),
        placed.len() <= usize::MAX,
        roots_follow(placed, s),
    ensures
        roots_follow(placed, follow(placed, s, turns)),
    decreases turns,
{
    if turns > 0 && s.waiting.len() > 0 {
        lemma_follow_step(placed, s);
        let pi = s.waiting[0];
        let rest = s.waiting.remove(0);
        match placed[pi as int].anchor {
            Some(a) => match s.root[a as int] {
                Some(r) => lemma_follow(
                    placed,
                    Roots { root: s.root.update(pi as int, Some(r)), waiting: rest },
                    (turns - 1) as nat,
                ),
                None => lemma_follow(
                    placed,
                    Roots { root: s.root, waiting: rest.push(pi) },
                    (turns - 1) as nat,
                ),
            },
            None => {},
        }
    }
}

/// The root of the component is on the sheet, has no anchor and is its own root; the anchor of
/// the component has the same root.
pub open spec fn in_group(g: Seq<PlacedComp>, i: int) -> bool {
    let r = g[i].group_root;
    &&& r < g.len()
    &&& g[r as int].anchor is None
    &&& g[r as int].group_root == r
    &&& g[i].anchor matches Some(a) ==> a < g.len() && g[a as int].group_root == r
}

/// Every component is in the group of its anchor, and every group has a root without an anchor.
pub proof fn law_groups_follow_anchors(placed: Seq<PlacedComp>)
    requires
        anchors_wf(placed),
        placed.len() <= usize::MAX,
    ensures
        forall|i: int| 0 <= i < placed.len() ==> #[trigger] in_group(grouped(placed), i),
{
    let g = grouped(placed);
    assert forall|i: int| 0 <= i < placed.len() implies #[trigger] in_group(g, i) by {
        match chain_root(placed, i) {
            Some(r) => {
                lemma_chain_end(placed, i, placed.len());
                assert(g[r as int] == grouped_one(placed, r as int));
                if let Some(a) = placed[i].anchor {
                    assert(placed[i].anchor == Some(a));
                    assert(a < placed.len());
                    assert(g[a as int] == grouped_one(placed, a as int));
                    lemma_chain_longer(placed, a as int, (placed.len() - 1) as nat, placed.len());
                }
            },
            None => {},
        }
    }
}

/// Every component is in the group of the component at which its chain of anchors ends, however
/// long the chain is, and keeps its anchor.
pub proof fn law_group_is_end_of_chain(placed: Seq<PlacedComp>, i: int, n: nat)
    requires
        anchors_wf(placed),
        0 <= i < placed.len(),
        chain_end(placed, i, n) is Some,
    ensures
        grouped(placed)[i] == (PlacedComp {
            group_root: chain_end(placed, i, n)->0,
            ..placed[i]
        }),
{
    lemma_chain_ends(placed, i, n);
}

proof fn lemma_chain_said(b: BoardView, waiting: Seq<usize>, k: int, n: int)
    requires
        0 <= k < n <= waiting.len(),
        chain_root(b.placed, waiting[k] as int) is None,
    ensures
        lost_chains(b, waiting, n).contains(
            (Warning::AnchorChain {
                refdes: b.design.comps@[b.placed[waiting[k] as int].comp as int].refdes,
            }),
        ),
    decreases n,
{
    let w = Warning::AnchorChain {
        refdes: b.design.comps@[b.placed[waiting[k] as int].comp as int].refdes,
    };
    let now = lost_chains(b, waiting, n);
    if k == n - 1 {
        assert(now[now.len() - 1] == w);
    } else {
        lemma_chain_said(b, waiting, k, n - 1);
        let before = lost_chains(b, waiting, n - 1);
        let x = choose|x: int| 0 <= x < before.len() && before[x] == w;
        assert(now[x] == w);
    }
}

/// There is a remark on every component whose chain of anchors never ends.
pub proof fn law_endless_chains_are_remarked(b: BoardView, i: int)
    requires
        anchors_wf(b.placed),
        b.placed.len() <= usize::MAX,
        0 <= i < b.placed.len(),
        forall|n: nat| chain_end(b.placed, i, n) is None,
    ensures
        lost_chains(
            b,
            followed(b.placed).waiting,
            followed(b.placed).waiting.len() as int,
        ).contains(
            (Warning::AnchorChain { refdes: b.design.comps@[b.placed[i].comp as int].refdes }),
        ),
{
    let placed = b.placed;
    let waiting = with_anchor(placed, placed.len() as int);
    lemma_first_roots(placed);
    lemma_follow(
        placed,
        Roots { root: own_roots(placed), waiting },
        (waiting.len() * 3 + 10) as nat,
    );
    let left = followed(placed).waiting;
    assert(root_sound(placed, followed(placed), i));
    assert(chain_end(placed, i, placed.len()) is None);
    let k = choose|k: int| 0 <= k < left.len() && left[k] == i as usize;
    lemma_chain_said(b, left, k, left.len() as int);
}

/// The end of the chain of anchors from a component.
fn find_root(placed: &[PlacedComp], i: usize) -> (r: Option<usize>)
    requires
        anchors_wf(placed@),
        i < placed@.len(),
    ensures
        r == chain_root(placed@, i as int),
{
    let mut at: usize = i;
    let mut left: usize = placed.len();
    while placed[at].anchor.is_some() && left > 0
        invariant
            anchors_wf(placed@),
            at < placed@.len(),
            chain_root(placed@, i as int) == chain_end(placed@, at as int, left as nat),
        decreases left,
    {
        match placed[at].anchor {
            Some(a) => {
                proof {
                    assert(placed@[at as int].anchor == Some(a));
                }
                at = a;
            },
            None => {},
        }
        left = left - 1;
    }
    if placed[at].anchor.is_none() {
        Some(at)
    } else {
        None
    }
}

/// Find the groups: every component ends up with the root of its chain of anchors. One whose chain
/// never ends stands alone, and is remarked upon.
pub fn resolve_groups(b: &Board, warnings: &mut Vec<Warning>) -> (r: Vec<PlacedComp>)
    requires
        b.wf(),
        anchors_wf(b.placed@),
    ensures
        r@ == grouped(b.placed@),
        anchors_wf(r@),
        r@.len() == b.placed@.len(),
        roots_wf(r@),
        final(warnings)@ == old(warnings)@ + lost_chains(
            b@,
            followed(b.placed@).waiting,
            followed(b.placed@).waiting.len() as int,
        ),
{
    let placed: &[PlacedComp] = b.placed;
    let mut root: Vec<Option<usize>> = Vec::new();
    let mut waiting: Vec<usize> = Vec::new();
    let mut n: usize = 0;
    while n < placed.len()
        invariant
            n <= placed.len(),
            root@ =~= own_roots(placed@).take(n as int),
            waiting@ == with_anchor(placed@, n as int),
        decreases placed.len() - n,
    {
        if placed[n].anchor.is_none() {
            root.push(Some(n));
        } else {
            root.push(None);
            waiting.push(n);
        }
        n = n + 1;
    }
    let mut turns: u128 = waiting.len() as u128 * 3 + 10;
    let ghost done = followed(placed@);
    proof {
        assert(root@ =~= own_roots(placed@));
        lemma_first_roots(placed@);
    }
    while waiting.len() > 0 && turns > 0
        invariant
            placed@.len() <= usize::MAX,
            anchors_wf(placed@),
            roots_follow(placed@, (Roots { root: root@, waiting: waiting@ })),
            done == follow(
                placed@,
                (Roots { root: root@, waiting: waiting@ }),
                turns as nat,
            ),
        decreases turns,
    {
        turns = turns - 1;
        proof {
            lemma_follow_step(placed@, Roots { root: root@, waiting: waiting@ });
        }
        let ghost w = waiting@;
        let pi: usize = waiting.remove(0);
        proof {
            assert(waiting@ =~= w.remove(0));
        }
        match placed[pi].anchor {
            Some(a) => {
                match root[a] {
                    Some(r) => {
                        root.set(pi, Some(r));
                    },
                    None => {
                        waiting.push(pi);
                    },
                }
            },
            None => {},
        }
    }
    proof {
        assert(done == (Roots { root: root@, waiting: waiting@ }));
    }
    let ghost w0 = warnings@;
    let mut n: usize = 0;
    proof {
        assert(w0 =~= w0 + lost_chains(b@, waiting@, 0));
    }
    while n < waiting.len()
        invariant
            n <= waiting.len(),
            b.wf(),
            anchors_wf(placed@),
            placed == b.placed,
            roots_follow(placed@, (Roots { root: root@, waiting: waiting@ })),
            warnings@ == w0 + lost_chains(b@, waiting@, n as int),
        decreases waiting.len() - n,
    {
        proof {
            assert(waits(placed@, Roots { root: root@, waiting: waiting@ }, n as int));
        }
        if find_root(placed, waiting[n]).is_none() {
            warnings.push(
                Warning::AnchorChain {
                    refdes: b.design.comps[placed[waiting[n]].comp].refdes.clone(),
                },
            );
        }
        n = n + 1;
        proof {
            assert(warnings@ =~= w0 + lost_chains(b@, waiting@, n as int));
        }
    }
    let mut out: Vec<PlacedComp> = Vec::new();
    let mut n: usize = 0;
    while n < placed.len()
        invariant
            n <= placed.len(),
            anchors_wf(placed@),
            out@ =~= grouped(placed@).take(n as int),
        decreases placed.len() - n,
    {
        let p: PlacedComp = placed[n];
        let q: PlacedComp = match find_root(placed, n) {
            Some(r) => PlacedComp { group_root: r, ..p },
            None => PlacedComp { anchor: None, group_root: n, ..p },
        };
        out.push(q);
        n = n + 1;
    }
    proof {
        assert(out@ =~= grouped(placed@));
        law_groups_follow_anchors(placed@);
        assert forall|i: int| 0 <= i < out@.len() implies ((#[trigger] out@[i]).anchor matches Some(
            a,
        ) ==> a < out@.len()) by {
            assert(in_group(out@, i));
        }
        assert forall|i: int| 0 <= i < out@.len() implies (#[trigger] out@[i]).group_root
            < out@.len() by {
            assert(in_group(out@, i));
        }
    }
    out
}

} // verus!
