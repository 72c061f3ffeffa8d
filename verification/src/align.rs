//! Sibling labels pulled onto one column, where nothing is in the way.

use vstd::prelude::*;
use crate::canvas::{
    wire_fits, Canvas, Drawing, GlobalLabel, HierLabel, NetLabel, Scene,
};
use crate::geometry::BBox;
use crate::glyphs::{boxes_collide_tol, collide, hier_box, hier_text_box, label_box, label_text_box};
use crate::order::{
    cut_runs, indices, lemma_sorted_items, rows, rows_wf, runs_by, sort_by, sorted_by, upto,
};
use crate::pins::{comp_at_pin, owner_of};
use crate::place::{label_text_width, text_width};
use crate::power::sign;
use crate::registry::{
    box_clear_of_bodies, box_clear_of_corridors, box_clear_of_nets, capped, crossings, well_spaced,
    LabelBox, NetBox, RegView,
};
use crate::units::{
    gap, greater, lesser, near, near_coord, spec_gap, spec_max, spec_min, spec_near,
    spec_near_point, Iu, Point, EPS,
};
use crate::wiring::{paths, Seg, Span};

verus! {

/// Which label an item stands for.
#[derive(Clone, Copy, Debug, PartialEq, Eq, Structural)]
pub enum LabelSlot {
    Global(usize),
    Hier(usize),
    Net(usize),
}

/// How a label hangs on its wire.
#[derive(Clone, Copy, Debug, PartialEq, Eq, Structural)]
pub enum AlignKind {
    /// At the end of a level stub: an end of a wire whose other end stays put.
    Stub { wire: usize, last: bool, fixed: Point, comp: usize },
    /// Along a level run between the two bounds.
    Interior { lo: Iu, hi: Iu },
}

/// A label that may move along its row.
#[derive(Debug)]
pub struct AlignItem {
    pub slot: LabelSlot,
    pub net: String,
    pub at: Point,
    pub rot: i32,
    pub kind: AlignKind,
}

// ---------------------------------------------------------------- labels that can move

/// A wire that ends at a label.
#[derive(Clone, Copy, Debug, PartialEq, Eq, Structural)]
pub struct StubEnd {
    pub wire: usize,
    pub last: bool,
    pub fixed: Point,
}

/// Does a wire come to the point along its row from the neighbouring vertex?
pub open spec fn comes_level(end: Point, next: Point, at: Point) -> bool {
    spec_near_point(end, at) && spec_near(next.y as int, at.y as int) && spec_gap(
        next.x as int,
        at.x as int,
    ) > EPS
}

/// The level ends of one wire at the point.
pub open spec fn ends_of_wire(w: Seq<Point>, k: int, at: Point) -> Seq<StubEnd> {
    if w.len() < 2 {
        Seq::empty()
    } else {
        (if comes_level(w[0], w[1], at) {
            seq![StubEnd { wire: k as usize, last: false, fixed: w[1] }]
        } else {
            Seq::empty()
        }) + (if comes_level(w.last(), w[w.len() - 2], at) {
            seq![StubEnd { wire: k as usize, last: true, fixed: w[w.len() - 2] }]
        } else {
            Seq::empty()
        })
    }
}

/// The level ends of the first `n` wires at the point.
pub open spec fn ends_at_point(wires: Seq<Seq<Point>>, at: Point, n: int) -> Seq<StubEnd>
    decreases n,
{
    if n <= 0 || n > wires.len() {
        Seq::empty()
    } else {
        ends_at_point(wires, at, n - 1) + ends_of_wire(wires[n - 1], n - 1, at)
    }
}

/// A label at the only level end of a stub off a pin, read outward.
pub open spec fn stub_kind(sc: Scene<'_>, d: Drawing, at: Point, rot: int) -> Option<AlignKind> {
    let ends = ends_at_point(d.wires, at, d.wires.len() as int);
    if (rot != 0 && rot != 180) || ends.len() != 1 {
        None
    } else {
        let e = ends[0];
        let owner = owner_of(*sc.design, sc.model.placed@, e.fixed, 0);
        if sign(at.x - e.fixed.x) != (if rot == 0 {
            1int
        } else {
            -1
        }) || owner is None {
            None
        } else {
            Some(
                AlignKind::Stub {
                    wire: e.wire,
                    last: e.last,
                    fixed: e.fixed,
                    comp: owner->0 as usize,
                },
            )
        }
    }
}

/// Does the run of the net pass level under the point?
pub open spec fn run_under(s: Seg, net: Seq<char>, at: Point) -> bool {
    s.net@ == net && spec_near(s.span.y1 as int, s.span.y2 as int) && spec_near(
        s.span.y1 as int,
        at.y as int,
    ) && spec_min(s.span.x1 as int, s.span.x2 as int) - EPS <= at.x <= spec_max(
        s.span.x1 as int,
        s.span.x2 as int,
    ) + EPS
}

/// The stretch of the first `n` runs of the net under the point.
pub open spec fn stretch_under(segs: Seq<Seg>, net: Seq<char>, at: Point, n: int) -> Option<(Iu, Iu)>
    decreases n,
{
    if n <= 0 || n > segs.len() {
        None
    } else {
        let before = stretch_under(segs, net, at, n - 1);
        let s = segs[n - 1];
        if run_under(s, net, at) {
            let lo = spec_min(s.span.x1 as int, s.span.x2 as int) as i32;
            let hi = spec_max(s.span.x1 as int, s.span.x2 as int) as i32;
            match before {
                Some((l, h)) => Some(
                    (spec_min(l as int, lo as int) as i32, spec_max(h as int, hi as int) as i32),
                ),
                None => Some((lo, hi)),
            }
        } else {
            before
        }
    }
}

/// A label on a level run of its net that is wide enough for the text.
pub open spec fn interior_kind(d: Drawing, net: Seq<char>, at: Point, rot: int) -> Option<AlignKind> {
    if rot != 0 && rot != 180 {
        None
    } else {
        match stretch_under(d.reg.segs, net, at, d.reg.segs.len() as int) {
            Some((lo, hi)) => if hi - lo < text_width(net.len() as int) - EPS {
                None
            } else {
                Some(AlignKind::Interior { lo, hi })
            },
            None => None,
        }
    }
}

pub open spec fn global_items(sc: Scene<'_>, d: Drawing, n: int) -> Seq<AlignItem>
    decreases n,
{
    if n <= 0 || n > d.global_labels.len() {
        Seq::empty()
    } else {
        let l = d.global_labels[n - 1];
        let before = global_items(sc, d, n - 1);
        match stub_kind(sc, d, l.at, l.rotation as int) {
            Some(kind) => before.push(
                AlignItem {
                    slot: LabelSlot::Global((n - 1) as usize),
                    net: l.net,
                    at: l.at,
                    rot: l.rotation,
                    kind,
                },
            ),
            None => before,
        }
    }
}

pub open spec fn hier_items(sc: Scene<'_>, d: Drawing, n: int) -> Seq<AlignItem>
    decreases n,
{
    if n <= 0 || n > d.hier_labels.len() {
        Seq::empty()
    } else {
        let l = d.hier_labels[n - 1];
        let before = hier_items(sc, d, n - 1);
        match stub_kind(sc, d, l.at, l.rotation as int) {
            Some(kind) => before.push(
                AlignItem {
                    slot: LabelSlot::Hier((n - 1) as usize),
                    net: l.net,
                    at: l.at,
                    rot: l.rotation,
                    kind,
                },
            ),
            None => before,
        }
    }
}

pub open spec fn net_items(d: Drawing, n: int) -> Seq<AlignItem>
    decreases n,
{
    if n <= 0 || n > d.net_labels.len() {
        Seq::empty()
    } else {
        let l = d.net_labels[n - 1];
        let before = net_items(d, n - 1);
        match interior_kind(d, l.net@, l.at, l.rotation as int) {
            Some(kind) => before.push(
                AlignItem {
                    slot: LabelSlot::Net((n - 1) as usize),
                    net: l.net,
                    at: l.at,
                    rot: l.rotation,
                    kind,
                },
            ),
            None => before,
        }
    }
}

/// Every label that may move along its row.
pub open spec fn align_items(sc: Scene<'_>, d: Drawing) -> Seq<AlignItem> {
    global_items(sc, d, d.global_labels.len() as int) + hier_items(
        sc,
        d,
        d.hier_labels.len() as int,
    ) + net_items(d, d.net_labels.len() as int)
}

/// The item points at a label, and at an end of a wire where it is at the end of a stub.
pub open spec fn item_wf(d: Drawing, it: AlignItem) -> bool {
    &&& match it.slot {
        LabelSlot::Global(i) => i < d.global_labels.len(),
        LabelSlot::Hier(i) => i < d.hier_labels.len(),
        LabelSlot::Net(i) => i < d.net_labels.len(),
    }
    &&& match it.kind {
        AlignKind::Stub { wire, last, fixed, comp } => wire < d.wires.len()
            && d.wires[wire as int].len() >= 2,
        AlignKind::Interior { lo, hi } => true,
    }
}

pub open spec fn items_wf(d: Drawing, items: Seq<AlignItem>) -> bool {
    forall|i: int| 0 <= i < items.len() ==> item_wf(d, #[trigger] items[i])
}

impl Canvas {
    fn stub_ends(&self, at: Point) -> (r: Vec<StubEnd>)
        ensures
            r@ == ends_at_point(self@.wires, at, self@.wires.len() as int),
            forall|i: int|
                0 <= i < r@.len() ==> (#[trigger] r@[i]).wire < self@.wires.len()
                    && self@.wires[r@[i].wire as int].len() >= 2,
    {
        let mut out: Vec<StubEnd> = Vec::new();
        let mut k: usize = 0;
        while k < self.out.wires.len()
            invariant
                k <= self.out.wires.len(),
                out@ == ends_at_point(self@.wires, at, k as int),
                forall|i: int|
                    0 <= i < out@.len() ==> (#[trigger] out@[i]).wire < self@.wires.len()
                        && self@.wires[out@[i].wire as int].len() >= 2,
            decreases self.out.wires.len() - k,
        {
            let w: &Vec<Point> = &self.out.wires[k];
            let ghost before = out@;
            proof {
                assert(self@.wires[k as int] == w@);
            }
            if w.len() >= 2 {
                let a: Point = w[0];
                let b: Point = w[1];
                if near(a, at) && near_coord(b.y, at.y) && gap(b.x, at.x) > EPS {
                    out.push(StubEnd { wire: k, last: false, fixed: b });
                }
                let a: Point = w[w.len() - 1];
                let b: Point = w[w.len() - 2];
                if near(a, at) && near_coord(b.y, at.y) && gap(b.x, at.x) > EPS {
                    out.push(StubEnd { wire: k, last: true, fixed: b });
                }
            }
            proof {
                assert(out@ =~= before + ends_of_wire(w@, k as int, at));
            }
            k = k + 1;
        }
        out
    }

    fn classify_stub(&self, sc: &Scene, at: Point, rot: i32) -> (r: Option<AlignKind>)
        requires
            sc.wf(),
        ensures
            r == stub_kind(*sc, self@, at, rot as int),
            match r {
                Some(AlignKind::Stub { wire, last, fixed, comp }) => wire < self@.wires.len()
                    && self@.wires[wire as int].len() >= 2,
                _ => true,
            },
    {
        if rot != 0 && rot != 180 {
            return None;
        }
        let ends: Vec<StubEnd> = self.stub_ends(at);
        if ends.len() != 1 {
            return None;
        }
        let e: StubEnd = ends[0];
        let outward: i64 = at.x as i64 - e.fixed.x as i64;
        let reads: bool = if rot == 0 {
            outward > 0
        } else {
            outward < 0
        };
        if !reads {
            return None;
        }
        match comp_at_pin(sc.design, &sc.model.placed, e.fixed) {
            Some(comp) => Some(
                AlignKind::Stub { wire: e.wire, last: e.last, fixed: e.fixed, comp },
            ),
            None => None,
        }
    }

    fn classify_interior(&self, net: &String, at: Point, rot: i32) -> (r: Option<AlignKind>)
        ensures
            r == interior_kind(self@, net@, at, rot as int),
            match r {
                Some(AlignKind::Stub { wire, last, fixed, comp }) => false,
                _ => true,
            },
    {
        if rot != 0 && rot != 180 {
            return None;
        }
        let mut found: Option<(Iu, Iu)> = None;
        let mut n: usize = 0;
        while n < self.reg.segs.len()
            invariant
                n <= self.reg.segs.len(),
                found == stretch_under(self.reg.segs@, net@, at, n as int),
            decreases self.reg.segs.len() - n,
        {
            let s: Span = self.reg.segs[n].span;
            let lo: Iu = lesser(s.x1, s.x2);
            let hi: Iu = greater(s.x1, s.x2);
            if self.reg.segs[n].net == *net && near_coord(s.y1, s.y2) && near_coord(s.y1, at.y)
                && lo as i64 - EPS <= at.x as i64 && at.x as i64 <= hi as i64 + EPS {
                found = match found {
                    Some((l, h)) => Some((lesser(l, lo), greater(h, hi))),
                    None => Some((lo, hi)),
                };
            }
            n = n + 1;
        }
        match found {
            Some((lo, hi)) => {
                if (hi as i64 - lo as i64) < label_text_width(net.as_str()) as i64 - EPS {
                    None
                } else {
                    Some(AlignKind::Interior { lo, hi })
                }
            },
            None => None,
        }
    }

    fn collect_align_items(&self, sc: &Scene) -> (r: Vec<AlignItem>)
        requires
            sc.wf(),
        ensures
            r@ == align_items(*sc, self@),
            items_wf(self@, r@),
    {
        let mut items: Vec<AlignItem> = Vec::new();
        let mut n: usize = 0;
        while n < self.out.global_labels.len()
            invariant
                n <= self.out.global_labels.len(),
                sc.wf(),
                items@ == global_items(*sc, self@, n as int),
                items_wf(self@, items@),
            decreases self.out.global_labels.len() - n,
        {
            let l: &GlobalLabel = &self.out.global_labels[n];
            match self.classify_stub(sc, l.at, l.rotation) {
                Some(kind) => {
                    items.push(
                        AlignItem {
                            slot: LabelSlot::Global(n),
                            net: l.net.clone(),
                            at: l.at,
                            rot: l.rotation,
                            kind,
                        },
                    );
                },
                None => {},
            }
            n = n + 1;
        }
        let ghost first = items@;
        let mut n: usize = 0;
        proof {
            assert(first =~= first + hier_items(*sc, self@, 0));
        }
        while n < self.out.hier_labels.len()
            invariant
                n <= self.out.hier_labels.len(),
                sc.wf(),
                items@ == first + hier_items(*sc, self@, n as int),
                items_wf(self@, items@),
            decreases self.out.hier_labels.len() - n,
        {
            let l: &HierLabel = &self.out.hier_labels[n];
            match self.classify_stub(sc, l.at, l.rotation) {
                Some(kind) => {
                    items.push(
                        AlignItem {
                            slot: LabelSlot::Hier(n),
                            net: l.net.clone(),
                            at: l.at,
                            rot: l.rotation,
                            kind,
                        },
                    );
                },
                None => {},
            }
            n = n + 1;
            proof {
                assert(items@ =~= first + hier_items(*sc, self@, n as int));
            }
        }
        let ghost second = items@;
        let mut n: usize = 0;
        proof {
            assert(second =~= second + net_items(self@, 0));
        }
        while n < self.out.net_labels.len()
            invariant
                n <= self.out.net_labels.len(),
                sc.wf(),
                items@ == second + net_items(self@, n as int),
                items_wf(self@, items@),
            decreases self.out.net_labels.len() - n,
        {
            let l: &NetLabel = &self.out.net_labels[n];
            match self.classify_interior(&l.net, l.at, l.rotation) {
                Some(kind) => {
                    items.push(
                        AlignItem {
                            slot: LabelSlot::Net(n),
                            net: l.net.clone(),
                            at: l.at,
                            rot: l.rotation,
                            kind,
                        },
                    );
                },
                None => {},
            }
            n = n + 1;
            proof {
                assert(items@ =~= second + net_items(self@, n as int));
            }
        }
        items
    }
}

// ---------------------------------------------------------------- clusters of stubs

/// The items among the first `n` that end a stub (`stub`), or lie on a run.
pub open spec fn items_of(items: Seq<AlignItem>, stub: bool, n: int) -> Seq<usize>
    decreases n,
{
    if n <= 0 || n > items.len() {
        Seq::empty()
    } else if (items[n - 1].kind is Stub) == stub {
        items_of(items, stub, n - 1).push((n - 1) as usize)
    } else {
        items_of(items, stub, n - 1)
    }
}

pub open spec fn stub_comp(it: AlignItem) -> int {
    match it.kind {
        AlignKind::Stub { wire, last, fixed, comp } => comp as int,
        AlignKind::Interior { lo, hi } => 0,
    }
}

pub open spec fn stub_side(it: AlignItem) -> int {
    match it.kind {
        AlignKind::Stub { wire, last, fixed, comp } => sign(it.at.x - fixed.x),
        AlignKind::Interior { lo, hi } => 0,
    }
}

/// Two stubs off the same side of a component, read the same way.
pub open spec fn same_side_of(a: AlignItem, b: AlignItem) -> bool {
    stub_comp(a) == stub_comp(b) && stub_side(a) == stub_side(b) && a.rot == b.rot
}

pub open spec fn stub_after(a: AlignItem, b: AlignItem) -> bool {
    if stub_comp(a) != stub_comp(b) {
        stub_comp(a) > stub_comp(b)
    } else if stub_side(a) != stub_side(b) {
        stub_side(a) > stub_side(b)
    } else {
        a.rot > b.rot
    }
}

pub open spec fn stub_groups(items: Seq<AlignItem>) -> Seq<Seq<usize>> {
    let order = sorted_by(
        items_of(items, true, items.len() as int),
        |a: usize, b: usize| stub_after(items[a as int], items[b as int]),
    );
    runs_by(
        order,
        |a: usize, b: usize| same_side_of(items[a as int], items[b as int]),
        order.len() as int,
    )
}

/// Leftmost label of the first `n` members.
pub open spec fn leftmost(items: Seq<AlignItem>, m: Seq<usize>, n: int) -> Iu
    decreases n,
{
    if n <= 0 || n > m.len() {
        i32::MAX
    } else {
        spec_min(leftmost(items, m, n - 1) as int, items[m[n - 1] as int].at.x as int) as i32
    }
}

/// Rightmost label of the first `n` members.
pub open spec fn rightmost(items: Seq<AlignItem>, m: Seq<usize>, n: int) -> Iu
    decreases n,
{
    if n <= 0 || n > m.len() {
        i32::MIN
    } else {
        spec_max(rightmost(items, m, n - 1) as int, items[m[n - 1] as int].at.x as int) as i32
    }
}

pub open spec fn spread(items: Seq<AlignItem>, m: Seq<usize>) -> int {
    rightmost(items, m, m.len() as int) - leftmost(items, m, m.len() as int)
}

fn edges_of(items: &Vec<AlignItem>, m: &Vec<usize>) -> (r: (Iu, Iu))
    requires
        forall|i: int| 0 <= i < m@.len() ==> #[trigger] m@[i] < items@.len(),
    ensures
        r.0 == leftmost(items@, m@, m@.len() as int),
        r.1 == rightmost(items@, m@, m@.len() as int),
{
    let mut lo: Iu = 2147483647;
    let mut hi: Iu = -2147483648;
    let mut n: usize = 0;
    while n < m.len()
        invariant
            n <= m.len(),
            forall|i: int| 0 <= i < m@.len() ==> #[trigger] m@[i] < items@.len(),
            lo == leftmost(items@, m@, n as int),
            hi == rightmost(items@, m@, n as int),
        decreases m.len() - n,
    {
        lo = lesser(lo, items[m[n]].at.x);
        hi = greater(hi, items[m[n]].at.x);
        n = n + 1;
    }
    (lo, hi)
}

fn stub_key(it: &AlignItem) -> (r: (usize, i32))
    ensures
        r.0 == stub_comp(*it),
        r.1 == stub_side(*it),
{
    match it.kind {
        AlignKind::Stub { wire, last, fixed, comp } => {
            let d: i64 = it.at.x as i64 - fixed.x as i64;
            let side: i32 = if d > 0 {
                1
            } else if d < 0 {
                -1
            } else {
                0
            };
            (comp, side)
        },
        AlignKind::Interior { lo, hi } => (0, 0),
    }
}

fn pick_items(items: &Vec<AlignItem>, stub: bool) -> (r: Vec<usize>)
    ensures
        r@ == items_of(items@, stub, items@.len() as int),
        forall|i: int|
            0 <= i < r@.len() ==> #[trigger] r@[i] < items@.len() && (items@[r@[i] as int].kind
                is Stub) == stub,
{
    let mut r: Vec<usize> = Vec::new();
    let mut n: usize = 0;
    while n < items.len()
        invariant
            n <= items.len(),
            r@ == items_of(items@, stub, n as int),
            forall|i: int|
                0 <= i < r@.len() ==> #[trigger] r@[i] < items@.len() && (items@[r@[i] as int].kind
                    is Stub) == stub,
        decreases items.len() - n,
    {
        let is_stub: bool = match items[n].kind {
            AlignKind::Stub { wire, last, fixed, comp } => true,
            AlignKind::Interior { lo, hi } => false,
        };
        if is_stub == stub {
            r.push(n);
        }
        n = n + 1;
    }
    r
}

fn group_stubs(items: &Vec<AlignItem>) -> (r: Vec<Vec<usize>>)
    ensures
        rows(r@) == stub_groups(items@),
        rows_wf(rows(r@), items@.len() as int),
{
    let list: Vec<usize> = pick_items(items, true);
    let ghost gt = |a: usize, b: usize| stub_after(items@[a as int], items@[b as int]);
    let after = |p: usize, q: usize| -> (r: bool)
        requires
            p < items@.len(),
            q < items@.len(),
        ensures
            r == stub_after(items@[p as int], items@[q as int]),
        {
            let a: (usize, i32) = stub_key(&items[p]);
            let b: (usize, i32) = stub_key(&items[q]);
            if a.0 != b.0 {
                a.0 > b.0
            } else if a.1 != b.1 {
                a.1 > b.1
            } else {
                items[p].rot > items[q].rot
            }
        };
    let order: Vec<usize> = sort_by(&list, after, Ghost(gt));
    proof {
        lemma_sorted_items(list@, gt, |i: usize| i < items@.len());
    }
    let ghost same = |a: usize, b: usize| same_side_of(items@[a as int], items@[b as int]);
    let joins = |p: usize, q: usize| -> (r: bool)
        requires
            p < items@.len(),
            q < items@.len(),
        ensures
            r == same_side_of(items@[p as int], items@[q as int]),
        {
            let a: (usize, i32) = stub_key(&items[p]);
            let b: (usize, i32) = stub_key(&items[q]);
            a.0 == b.0 && a.1 == b.1 && items[p].rot == items[q].rot
        };
    cut_runs(&order, joins, Ghost(same), Ghost(items@.len() as int))
}

// ---------------------------------------------------------------- clusters of labels on runs

/// Two labels of two nets on neighbouring parallel runs, read the same way.
pub open spec fn siblings(sc: Scene<'_>, a: AlignItem, b: AlignItem) -> bool {
    match (a.kind, b.kind) {
        (AlignKind::Interior { lo: la, hi: ha }, AlignKind::Interior { lo: lb, hi: hb }) => {
            &&& a.rot == b.rot
            &&& a.net@ != b.net@
            &&& EPS < spec_gap(a.at.y as int, b.at.y as int) <= 6 * sc.cfg.grid_mm + EPS
            &&& spec_gap(a.at.x as int, b.at.x as int) <= 20 * sc.cfg.grid_mm + EPS
            &&& spec_max(la as int, lb as int) < spec_min(ha as int, hb as int) - EPS
        },
        _ => false,
    }
}

fn are_siblings(sc: &Scene, a: &AlignItem, b: &AlignItem) -> (r: bool)
    ensures
        r == siblings(*sc, *a, *b),
{
    match (a.kind, b.kind) {
        (AlignKind::Interior { lo: la, hi: ha }, AlignKind::Interior { lo: lb, hi: hb }) => {
            let g: i64 = sc.cfg.grid_mm as i64;
            let dy: i64 = gap(a.at.y, b.at.y);
            a.rot == b.rot && a.net != b.net && EPS < dy && dy <= 6 * g + EPS && gap(a.at.x, b.at.x)
                <= 20 * g + EPS && (greater(la, lb) as i64) < lesser(ha, hb) as i64 - EPS
        },
        _ => false,
    }
}

/// `roots` with the class of `a` merged into the class of `b`.
pub open spec fn merged(roots: Seq<usize>, a: int, b: int) -> Seq<usize> {
    Seq::new(
        roots.len(),
        |i: int|
            if roots[i] == roots[a] {
                roots[b]
            } else {
                roots[i]
            },
    )
}

/// The classes once item `a` has been held against the items `a + 1..b`.
pub open spec fn classes_with(
    sc: Scene<'_>,
    items: Seq<AlignItem>,
    list: Seq<usize>,
    roots: Seq<usize>,
    a: int,
    b: int,
) -> Seq<usize>
    decreases b - a,
{
    if b <= a + 1 || b > list.len() {
        roots
    } else {
        let before = classes_with(sc, items, list, roots, a, b - 1);
        if siblings(sc, items[list[a] as int], items[list[b - 1] as int]) {
            merged(before, a, b - 1)
        } else {
            before
        }
    }
}

/// The classes once the first `n` items have been held against those behind them.
pub open spec fn classes(sc: Scene<'_>, items: Seq<AlignItem>, list: Seq<usize>, n: int) -> Seq<usize>
    decreases n,
{
    if n <= 0 || n > list.len() {
        upto(list.len() as int)
    } else {
        classes_with(
            sc,
            items,
            list,
            classes(sc, items, list, n - 1),
            n - 1,
            list.len() as int,
        )
    }
}

/// The items among the first `n` of the class `r`.
pub open spec fn class_of(list: Seq<usize>, roots: Seq<usize>, r: int, n: int) -> Seq<usize>
    decreases n,
{
    if n <= 0 || n > list.len() {
        Seq::empty()
    } else if roots[n - 1] == r {
        class_of(list, roots, r, n - 1).push(list[n - 1])
    } else {
        class_of(list, roots, r, n - 1)
    }
}

fn find_classes(sc: &Scene, items: &Vec<AlignItem>, list: &Vec<usize>) -> (r: Vec<usize>)
    requires
        forall|i: int| 0 <= i < list@.len() ==> #[trigger] list@[i] < items@.len(),
    ensures
        r@ == classes(*sc, items@, list@, list@.len() as int),
        r@.len() == list@.len(),
{
    let mut roots: Vec<usize> = indices(list.len());
    let mut a: usize = 0;
    while a < list.len()
        invariant
            a <= list.len(),
            forall|i: int| 0 <= i < list@.len() ==> #[trigger] list@[i] < items@.len(),
            roots@ == classes(*sc, items@, list@, a as int),
            roots@.len() == list@.len(),
        decreases list.len() - a,
    {
        let ghost start = roots@;
        let mut b: usize = a + 1;
        while b < list.len()
            invariant
                a < b <= list.len(),
                forall|i: int| 0 <= i < list@.len() ==> #[trigger] list@[i] < items@.len(),
                roots@ == classes_with(*sc, items@, list@, start, a as int, b as int),
                roots@.len() == list@.len(),
            decreases list.len() - b,
        {
            if are_siblings(sc, &items[list[a]], &items[list[b]]) {
                let ra: usize = roots[a];
                let rb: usize = roots[b];
                let ghost before = roots@;
                let mut i: usize = 0;
                while i < roots.len()
                    invariant
                        i <= roots.len(),
                        roots@.len() == before.len(),
                        a < before.len(),
                        b < before.len(),
                        ra == before[a as int],
                        rb == before[b as int],
                        forall|k: int|
                            0 <= k < i ==> #[trigger] roots@[k] == merged(
                                before,
                                a as int,
                                b as int,
                            )[k],
                        forall|k: int| i <= k < roots@.len() ==> #[trigger] roots@[k] == before[k],
                    decreases roots.len() - i,
                {
                    if roots[i] == ra {
                        roots.set(i, rb);
                    }
                    i = i + 1;
                }
                proof {
                    assert(roots@ =~= merged(before, a as int, b as int));
                }
            }
            b = b + 1;
        }
        a = a + 1;
    }
    roots
}

// ---------------------------------------------------------------- moving a cluster

/// The column that a cluster is pulled to: the outermost label of the way it reads.
pub open spec fn target_of(items: Seq<AlignItem>, m: Seq<usize>) -> Iu {
    if items[m[0] as int].rot == 0 {
        rightmost(items, m, m.len() as int)
    } else {
        leftmost(items, m, m.len() as int)
    }
}

/// Extent of a label of this slot.
pub open spec fn slot_box(slot: LabelSlot, n: int, at: Point, rot: int) -> BBox {
    if slot is Hier {
        hier_box(n, at, rot)
    } else {
        label_box(n, at, rot)
    }
}

fn slot_box_of(slot: LabelSlot, name: &String, at: Point, rot: i32) -> (b: BBox)
    ensures
        b == slot_box(slot, name@.len() as int, at, rot as int),
{
    match slot {
        LabelSlot::Hier(_) => hier_text_box(name.as_str(), at, rot),
        _ => label_text_box(name.as_str(), at, rot),
    }
}

pub open spec fn moved_to(it: AlignItem, x: Iu) -> Point {
    Point { x, y: it.at.y }
}

/// May the item move to the column?
pub open spec fn may_move(sc: Scene<'_>, d: Drawing, it: AlignItem, x: Iu) -> bool {
    match it.kind {
        AlignKind::Stub { wire, last, fixed, comp } => {
            let path = seq![fixed, moved_to(it, x)];
            let was = seq![fixed, it.at];
            &&& spec_gap(x as int, fixed.x as int) + EPS >= spec_gap(it.at.x as int, fixed.x as int)
            &&& wire_fits(sc, d, path, it.net@, Seq::empty())
            &&& well_spaced(*sc.cfg, d.reg.segs, path, it.net@)
            &&& capped(crossings(d.reg.segs, path, Some(it.net@))) <= capped(
                crossings(d.reg.segs, was, Some(it.net@)),
            )
        },
        AlignKind::Interior { lo, hi } => lo - EPS <= x <= hi + EPS,
    }
}

pub open spec fn all_may_move(sc: Scene<'_>, d: Drawing, items: Seq<AlignItem>, m: Seq<usize>, x: Iu) -> bool {
    forall|i: int| 0 <= i < m.len() ==> may_move(sc, d, items[#[trigger] m[i] as int], x)
}

/// The box of the item once it has moved.
pub open spec fn moved_box(items: Seq<AlignItem>, m: Seq<usize>, x: Iu, i: int) -> BBox {
    let it = items[m[i] as int];
    slot_box(it.slot, it.net@.len() as int, moved_to(it, x), items[m[0] as int].rot as int)
}

/// Is the net one of the members' nets?
pub open spec fn member_net(items: Seq<AlignItem>, m: Seq<usize>, net: Seq<char>) -> bool {
    exists|i: int| 0 <= i < m.len() && items[#[trigger] m[i] as int].net@ == net
}

/// No text of another net is covered by more than half a millimetre.
pub open spec fn clear_of_other_texts(
    reg: RegView,
    items: Seq<AlignItem>,
    m: Seq<usize>,
    b: BBox,
) -> bool {
    &&& forall|k: int|
        0 <= k < reg.text_boxes.len() ==> member_net(
            items,
            m,
            (#[trigger] reg.text_boxes[k]).net@,
        ) || !collide(reg.text_boxes[k].bbox, b, 5000)
    &&& forall|k: int|
        0 <= k < reg.label_boxes.len() ==> member_net(
            items,
            m,
            (#[trigger] reg.label_boxes[k]).net@,
        ) || !collide(reg.label_boxes[k].bbox, b, 5000)
}

/// The box of one member is clear.
pub open spec fn member_clear(
    sc: Scene<'_>,
    d: Drawing,
    items: Seq<AlignItem>,
    m: Seq<usize>,
    x: Iu,
    i: int,
) -> bool {
    let b = moved_box(items, m, x, i);
    let net = items[m[i] as int].net@;
    box_clear_of_bodies(*sc.design, sc.model.placed@, b) && box_clear_of_nets(d.reg, b, net)
        && box_clear_of_corridors(sc.corridors@, b, net) && clear_of_other_texts(
        d.reg,
        items,
        m,
        b,
    )
}

/// Two members of different nets that would cover each other.
pub open spec fn members_collide(items: Seq<AlignItem>, m: Seq<usize>, x: Iu, i: int, j: int) -> bool {
    items[m[i] as int].net@ != items[m[j] as int].net@ && collide(
        moved_box(items, m, x, i),
        moved_box(items, m, x, j),
        5000,
    )
}

pub open spec fn members_clear(
    sc: Scene<'_>,
    d: Drawing,
    items: Seq<AlignItem>,
    m: Seq<usize>,
    x: Iu,
) -> bool {
    &&& forall|i: int| 0 <= i < m.len() ==> #[trigger] member_clear(sc, d, items, m, x, i)
    &&& forall|i: int, j: int|
        0 <= i < j < m.len() ==> !#[trigger] members_collide(items, m, x, i, j)
}

/// `segs` with the level runs of the net that end at `from` grown to the column.
pub open spec fn runs_grown(segs: Seq<Seg>, net: Seq<char>, from: Point, x: Iu) -> Seq<Seg> {
    Seq::new(
        segs.len(),
        |i: int|
            {
                let s = segs[i];
                if s.net@ != net || !spec_near(s.span.y1 as int, s.span.y2 as int) {
                    s
                } else if spec_near_point(Point { x: s.span.x1, y: s.span.y1 }, from) {
                    Seg { span: Span { x1: x, ..s.span }, net: s.net }
                } else if spec_near_point(Point { x: s.span.x2, y: s.span.y2 }, from) {
                    Seg { span: Span { x2: x, ..s.span }, net: s.net }
                } else {
                    s
                }
            },
    )
}

/// Index of the first box of the net, at or after `i`, that covers the given one.
pub open spec fn covering_box(boxes: Seq<NetBox>, net: Seq<char>, b: BBox, i: int) -> Option<int>
    decreases boxes.len() - i,
{
    if i < 0 || i >= boxes.len() {
        None
    } else if boxes[i].net@ == net && collide(boxes[i].bbox, b, EPS as int) {
        Some(i)
    } else {
        covering_box(boxes, net, b, i + 1)
    }
}

/// Index of the first text of the net, at or after `i`, that covers the given box.
pub open spec fn covering_text(boxes: Seq<LabelBox>, net: Seq<char>, b: BBox, i: int) -> Option<int>
    decreases boxes.len() - i,
{
    if i < 0 || i >= boxes.len() {
        None
    } else if boxes[i].net@ == net && collide(boxes[i].bbox, b, EPS as int) {
        Some(i)
    } else {
        covering_text(boxes, net, b, i + 1)
    }
}

impl Drawing {
    /// With the label of the item moved to the column.
    pub open spec fn label_moved(self, it: AlignItem, x: Iu) -> Drawing {
        let at = moved_to(it, x);
        match it.slot {
            LabelSlot::Global(i) => Drawing {
                global_labels: self.global_labels.update(
                    i as int,
                    GlobalLabel { at, ..self.global_labels[i as int] },
                ),
                ..self
            },
            LabelSlot::Hier(i) => Drawing {
                hier_labels: self.hier_labels.update(
                    i as int,
                    HierLabel { at, ..self.hier_labels[i as int] },
                ),
                ..self
            },
            LabelSlot::Net(i) => Drawing {
                net_labels: self.net_labels.update(
                    i as int,
                    NetLabel { at, ..self.net_labels[i as int] },
                ),
                ..self
            },
        }
    }

    /// With the stub of the item grown to the column.
    pub open spec fn stub_grown(self, it: AlignItem, x: Iu) -> Drawing {
        match it.kind {
            AlignKind::Stub { wire, last, fixed, comp } => {
                let w = self.wires[wire as int];
                let v = if last {
                    w.len() - 1
                } else {
                    0
                };
                Drawing {
                    wires: self.wires.update(wire as int, w.update(v, moved_to(it, x))),
                    reg: RegView {
                        segs: runs_grown(self.reg.segs, it.net@, it.at, x),
                        ..self.reg
                    },
                    ..self
                }
            },
            AlignKind::Interior { lo, hi } => self,
        }
    }

    /// With the box of the item's text moved along.
    pub open spec fn box_moved(self, it: AlignItem, rot: int, b: BBox) -> Drawing {
        let was = slot_box(it.slot, it.net@.len() as int, it.at, rot);
        if let Some(k) = covering_text(self.reg.text_boxes, it.net@, was, 0) {
            Drawing {
                reg: RegView {
                    text_boxes: self.reg.text_boxes.update(
                        k,
                        LabelBox { bbox: b, ..self.reg.text_boxes[k] },
                    ),
                    ..self.reg
                },
                ..self
            }
        } else {
            match covering_box(self.reg.label_boxes, it.net@, was, 0) {
            Some(k) => Drawing {
                reg: RegView {
                    label_boxes: self.reg.label_boxes.update(
                        k,
                        NetBox { bbox: b, net: self.reg.label_boxes[k].net },
                    ),
                    ..self.reg
                },
                ..self
            },
            None => self,
            }
        }
    }

    /// With one item moved to the column.
    pub open spec fn item_moved(self, items: Seq<AlignItem>, m: Seq<usize>, x: Iu, i: int) -> Drawing {
        let it = items[m[i] as int];
        self.label_moved(it, x).stub_grown(it, x).box_moved(
            it,
            items[m[0] as int].rot as int,
            moved_box(items, m, x, i),
        )
    }

    /// With the first `n` members moved to the column.
    pub open spec fn members_moved(self, items: Seq<AlignItem>, m: Seq<usize>, x: Iu, n: int) -> Drawing
        decreases n,
    {
        if n <= 0 || n > m.len() {
            self
        } else {
            self.members_moved(items, m, x, n - 1).item_moved(items, m, x, n - 1)
        }
    }

    /// With the cluster on one column, where every member can go there; else unchanged.
    pub open spec fn aligned(self, sc: Scene<'_>, items: Seq<AlignItem>, m: Seq<usize>) -> Drawing {
        let x = target_of(items, m);
        if all_may_move(sc, self, items, m, x) && members_clear(sc, self, items, m, x) {
            self.members_moved(items, m, x, m.len() as int)
        } else {
            self
        }
    }
}

/// Is the group of stubs worth aligning? Its labels are apart, but not by a detour.
pub open spec fn stub_cluster(sc: Scene<'_>, items: Seq<AlignItem>, m: Seq<usize>) -> bool {
    m.len() >= 2 && EPS < spread(items, m) <= 20 * sc.cfg.grid_mm + EPS
}

pub open spec fn stubs_aligned(
    sc: Scene<'_>,
    d: Drawing,
    items: Seq<AlignItem>,
    groups: Seq<Seq<usize>>,
    n: int,
) -> Drawing
    decreases n,
{
    if n <= 0 || n > groups.len() {
        d
    } else {
        let before = stubs_aligned(sc, d, items, groups, n - 1);
        if stub_cluster(sc, items, groups[n - 1]) {
            before.aligned(sc, items, groups[n - 1])
        } else {
            before
        }
    }
}

/// The classes of labels on runs, up to class `n`, each on one column where it can be.
pub open spec fn classes_aligned(
    sc: Scene<'_>,
    d: Drawing,
    items: Seq<AlignItem>,
    list: Seq<usize>,
    roots: Seq<usize>,
    n: int,
) -> Drawing
    decreases n,
{
    if n <= 0 || n > list.len() {
        d
    } else {
        let before = classes_aligned(sc, d, items, list, roots, n - 1);
        let m = class_of(list, roots, n - 1, list.len() as int);
        if m.len() >= 2 && spread(items, m) > EPS {
            before.aligned(sc, items, m)
        } else {
            before
        }
    }
}

/// The sheet with sibling labels on common columns.
pub open spec fn siblings_aligned(sc: Scene<'_>, d: Drawing) -> Drawing {
    if !sc.cfg.align_sibling_ports {
        d
    } else {
        let items = align_items(sc, d);
        let groups = stub_groups(items);
        let d1 = stubs_aligned(sc, d, items, groups, groups.len() as int);
        let list = items_of(items, false, items.len() as int);
        let roots = classes(sc, items, list, list.len() as int);
        classes_aligned(sc, d1, items, list, roots, list.len() as int)
    }
}

// ---------------------------------------------------------------- doing it

pub open spec fn members_wf(items: Seq<AlignItem>, m: Seq<usize>) -> bool {
    m.len() > 0 && forall|i: int| 0 <= i < m.len() ==> #[trigger] m[i] < items.len()
}

proof fn lemma_move_keeps(d: Drawing, items: Seq<AlignItem>, m: Seq<usize>, x: Iu, i: int)
    requires
        items_wf(d, items),
        members_wf(items, m),
        0 <= i < m.len(),
    ensures
        items_wf(d.item_moved(items, m, x, i), items),
{
    let it = items[m[i] as int];
    let e = d.item_moved(items, m, x, i);
    assert(item_wf(d, it));
    assert(e.wires.len() == d.wires.len());
    assert(forall|k: int| 0 <= k < d.wires.len() ==> (#[trigger] e.wires[k]).len() == d.wires[k].len());
    assert forall|k: int| 0 <= k < items.len() implies item_wf(e, #[trigger] items[k]) by {
        assert(item_wf(d, items[k]));
    }
}

impl Canvas {
    fn can_move(&self, sc: &Scene, it: &AlignItem, x: Iu) -> (r: bool)
        requires
            sc.wf(),
        ensures
            r == may_move(*sc, self@, *it, x),
    {
        match it.kind {
            AlignKind::Stub { wire, last, fixed, comp } => {
                let to: Point = Point { x, y: it.at.y };
                if gap(x, fixed.x) + EPS < gap(it.at.x, fixed.x) {
                    return false;
                }
                let path: Vec<Point> = vec![fixed, to];
                let was: Vec<Point> = vec![fixed, it.at];
                let none: Vec<usize> = Vec::new();
                proof {
                    assert(path@ =~= seq![fixed, to]);
                    assert(was@ =~= seq![fixed, it.at]);
                }
                self.wire_ok(sc, &path, &it.net, &none) && self.reg.parallel_clear(
                    sc.cfg,
                    &path,
                    &it.net,
                ) && self.reg.foreign_crossings(&path, &it.net) <= self.reg.foreign_crossings(
                    &was,
                    &it.net,
                )
            },
            AlignKind::Interior { lo, hi } => lo as i64 - EPS <= x as i64 && x as i64 <= hi as i64
                + EPS,
        }
    }

    fn is_member_net(items: &Vec<AlignItem>, m: &Vec<usize>, net: &String) -> (r: bool)
        requires
            members_wf(items@, m@),
        ensures
            r == member_net(items@, m@, net@),
    {
        let mut i: usize = 0;
        while i < m.len()
            invariant
                i <= m.len(),
                members_wf(items@, m@),
                forall|k: int| 0 <= k < i ==> items@[#[trigger] m@[k] as int].net@ != net@,
            decreases m.len() - i,
        {
            if items[m[i]].net == *net {
                return true;
            }
            i = i + 1;
        }
        false
    }

    fn texts_leave_room(&self, items: &Vec<AlignItem>, m: &Vec<usize>, b: &BBox) -> (r: bool)
        requires
            members_wf(items@, m@),
        ensures
            r == clear_of_other_texts(self@.reg, items@, m@, *b),
    {
        let ghost reg = self@.reg;
        let mut k: usize = 0;
        while k < self.reg.text_boxes.len()
            invariant
                k <= self.reg.text_boxes.len(),
                members_wf(items@, m@),
                reg == self@.reg,
                forall|j: int|
                    0 <= j < k ==> member_net(items@, m@, (#[trigger] reg.text_boxes[j]).net@)
                        || !collide(reg.text_boxes[j].bbox, *b, 5000),
            decreases self.reg.text_boxes.len() - k,
        {
            if boxes_collide_tol(&self.reg.text_boxes[k].bbox, b, 5000) && !Canvas::is_member_net(
                items,
                m,
                &self.reg.text_boxes[k].net.show(),
            ) {
                proof {
                    assert(!member_net(items@, m@, reg.text_boxes[k as int].net@));
                }
                return false;
            }
            k = k + 1;
        }
        let mut k: usize = 0;
        while k < self.reg.label_boxes.len()
            invariant
                k <= self.reg.label_boxes.len(),
                members_wf(items@, m@),
                reg == self@.reg,
                forall|j: int|
                    0 <= j < k ==> member_net(items@, m@, (#[trigger] reg.label_boxes[j]).net@)
                        || !collide(reg.label_boxes[j].bbox, *b, 5000),
            decreases self.reg.label_boxes.len() - k,
        {
            if boxes_collide_tol(&self.reg.label_boxes[k].bbox, b, 5000) && !Canvas::is_member_net(
                items,
                m,
                &self.reg.label_boxes[k].net,
            ) {
                proof {
                    assert(!member_net(items@, m@, reg.label_boxes[k as int].net@));
                }
                return false;
            }
            k = k + 1;
        }
        true
    }

    fn moved_box_of(items: &Vec<AlignItem>, m: &Vec<usize>, x: Iu, i: usize) -> (b: BBox)
        requires
            members_wf(items@, m@),
            i < m@.len(),
        ensures
            b == moved_box(items@, m@, x, i as int),
    {
        let it: &AlignItem = &items[m[i]];
        slot_box_of(it.slot, &it.net, Point { x, y: it.at.y }, items[m[0]].rot)
    }

    /// Are the boxes of the members clear once they have moved?
    fn trial_boxes_clear(&self, sc: &Scene, items: &Vec<AlignItem>, m: &Vec<usize>, x: Iu) -> (r:
        bool)
        requires
            sc.wf(),
            members_wf(items@, m@),
        ensures
            r == members_clear(*sc, self@, items@, m@, x),
    {
        let mut i: usize = 0;
        while i < m.len()
            invariant
                i <= m.len(),
                sc.wf(),
                members_wf(items@, m@),
                forall|k: int|
                    0 <= k < i ==> #[trigger] member_clear(*sc, self@, items@, m@, x, k),
            decreases m.len() - i,
        {
            let b: BBox = Canvas::moved_box_of(items, m, x, i);
            if !self.reg.box_clear_but_texts(
                sc.design,
                &sc.model.placed,
                sc.corridors,
                &b,
                &items[m[i]].net,
            ) || !self.texts_leave_room(items, m, &b) {
                proof {
                    assert(!member_clear(*sc, self@, items@, m@, x, i as int));
                }
                return false;
            }
            i = i + 1;
        }
        let mut i: usize = 0;
        while i < m.len()
            invariant
                i <= m.len(),
                members_wf(items@, m@),
                forall|p: int, q: int|
                    0 <= p < q < m@.len() && p < i ==> !#[trigger] members_collide(
                        items@,
                        m@,
                        x,
                        p,
                        q,
                    ),
            decreases m.len() - i,
        {
            let a: BBox = Canvas::moved_box_of(items, m, x, i);
            let mut j: usize = i + 1;
            while j < m.len()
                invariant
                    i < j <= m.len(),
                    members_wf(items@, m@),
                    a == moved_box(items@, m@, x, i as int),
                    forall|q: int|
                        i < q < j ==> !#[trigger] members_collide(items@, m@, x, i as int, q),
                decreases m.len() - j,
            {
                let b: BBox = Canvas::moved_box_of(items, m, x, j);
                if items[m[i]].net != items[m[j]].net && boxes_collide_tol(&a, &b, 5000) {
                    proof {
                        assert(members_collide(items@, m@, x, i as int, j as int));
                    }
                    return false;
                }
                j = j + 1;
            }
            i = i + 1;
        }
        true
    }

    fn move_label(&mut self, it: &AlignItem, x: Iu)
        requires
            item_wf(old(self)@, *it),
        ensures
            final(self)@ == old(self)@.label_moved(*it, x),
    {
        let at: Point = Point { x, y: it.at.y };
        match it.slot {
            LabelSlot::Global(i) => {
                let l: GlobalLabel = GlobalLabel {
                    net: self.out.global_labels[i].net.clone(),
                    at,
                    rotation: self.out.global_labels[i].rotation,
                    direction: self.out.global_labels[i].direction,
                };
                self.out.global_labels.set(i, l);
            },
            LabelSlot::Hier(i) => {
                let l: HierLabel = HierLabel {
                    net: self.out.hier_labels[i].net.clone(),
                    at,
                    rotation: self.out.hier_labels[i].rotation,
                    direction: self.out.hier_labels[i].direction,
                };
                self.out.hier_labels.set(i, l);
            },
            LabelSlot::Net(i) => {
                let l: NetLabel = NetLabel {
                    net: self.out.net_labels[i].net.clone(),
                    at,
                    rotation: self.out.net_labels[i].rotation,
                };
                self.out.net_labels.set(i, l);
            },
        }
    }

    fn grow_runs(&mut self, net: &String, from: Point, x: Iu)
        ensures
            final(self)@ == (Drawing {
                reg: (RegView {
                    segs: runs_grown(old(self)@.reg.segs, net@, from, x),
                    ..old(self)@.reg
                }),
                ..old(self)@
            }),
    {
        let ghost before = self.reg.segs@;
        let ghost goal = runs_grown(before, net@, from, x);
        let ghost d0 = self@;
        let mut n: usize = 0;
        while n < self.reg.segs.len()
            invariant
                n <= self.reg.segs.len(),
                self.reg.segs@.len() == before.len(),
                goal == runs_grown(before, net@, from, x),
                forall|k: int| 0 <= k < n ==> #[trigger] self.reg.segs@[k] == goal[k],
                forall|k: int| n <= k < before.len() ==> #[trigger] self.reg.segs@[k] == before[k],
                self@ == (Drawing {
                    reg: (RegView { segs: self.reg.segs@, ..d0.reg }),
                    ..d0
                }),
            decreases self.reg.segs.len() - n,
        {
            let s: Span = self.reg.segs[n].span;
            if self.reg.segs[n].net == *net && near_coord(s.y1, s.y2) {
                let a: Point = Point { x: s.x1, y: s.y1 };
                let b: Point = Point { x: s.x2, y: s.y2 };
                if near(a, from) {
                    let grown: Seg = Seg {
                        span: Span { x1: x, y1: s.y1, x2: s.x2, y2: s.y2 },
                        net: self.reg.segs[n].net.clone(),
                    };
                    self.reg.segs.set(n, grown);
                } else if near(b, from) {
                    let grown: Seg = Seg {
                        span: Span { x1: s.x1, y1: s.y1, x2: x, y2: s.y2 },
                        net: self.reg.segs[n].net.clone(),
                    };
                    self.reg.segs.set(n, grown);
                }
            }
            n = n + 1;
        }
        proof {
            assert(self.reg.segs@ =~= goal);
        }
    }

    fn grow_stub(&mut self, it: &AlignItem, x: Iu)
        requires
            item_wf(old(self)@, *it),
        ensures
            final(self)@ == old(self)@.stub_grown(*it, x),
    {
        match it.kind {
            AlignKind::Stub { wire, last, fixed, comp } => {
                let ghost before = self.out.wires@;
                let ghost d0 = self@;
                let mut w: Vec<Point> = self.out.wires[wire].clone();
                proof {
                    assert(w@ =~= before[wire as int]@);
                    assert(d0.wires[wire as int] == before[wire as int]@);
                }
                let v: usize = if last {
                    w.len() - 1
                } else {
                    0
                };
                w.set(v, Point { x, y: it.at.y });
                let ghost grown = w@;
                self.out.wires.set(wire, w);
                proof {
                    assert(paths(self.out.wires@) =~= d0.wires.update(wire as int, grown));
                }
                self.grow_runs(&it.net, it.at, x);
            },
            AlignKind::Interior { lo, hi } => {},
        }
    }

    fn move_box(&mut self, it: &AlignItem, rot: i32, b: BBox)
        ensures
            final(self)@ == old(self)@.box_moved(*it, rot as int, b),
    {
        let was: BBox = slot_box_of(it.slot, &it.net, it.at, rot);
        let mut k: usize = 0;
        while k < self.reg.text_boxes.len()
            invariant
                k <= self.reg.text_boxes.len(),
                *self == *old(self),
                was == slot_box(it.slot, it.net@.len() as int, it.at, rot as int),
                covering_text(self@.reg.text_boxes, it.net@, was, 0) == covering_text(
                    self@.reg.text_boxes,
                    it.net@,
                    was,
                    k as int,
                ),
            decreases self.reg.text_boxes.len() - k,
        {
            if self.reg.text_boxes[k].net.is(it.net.as_str()) && boxes_collide_tol(
                &self.reg.text_boxes[k].bbox,
                &was,
                10,
            ) {
                self.reg.text_boxes[k].bbox = b;
                return;
            }
            k = k + 1;
        }
        let mut k: usize = 0;
        while k < self.reg.label_boxes.len()
            invariant
                k <= self.reg.label_boxes.len(),
                *self == *old(self),
                was == slot_box(it.slot, it.net@.len() as int, it.at, rot as int),
                covering_text(self@.reg.text_boxes, it.net@, was, 0) is None,
                covering_box(self@.reg.label_boxes, it.net@, was, 0) == covering_box(
                    self@.reg.label_boxes,
                    it.net@,
                    was,
                    k as int,
                ),
            decreases self.reg.label_boxes.len() - k,
        {
            if self.reg.label_boxes[k].net == it.net && boxes_collide_tol(
                &self.reg.label_boxes[k].bbox,
                &was,
                10,
            ) {
                self.reg.label_boxes[k].bbox = b;
                return;
            }
            k = k + 1;
        }
    }

    /// Pull a cluster onto one column, where every member can go there.
    pub fn try_align_cluster(&mut self, sc: &Scene, items: &Vec<AlignItem>, m: &Vec<usize>)
        requires
            sc.wf(),
            members_wf(items@, m@),
            items_wf(old(self)@, items@),
        ensures
            final(self)@ == old(self)@.aligned(*sc, items@, m@),
            items_wf(final(self)@, items@),
    {
        let (lo, hi): (Iu, Iu) = edges_of(items, m);
        let rot: i32 = items[m[0]].rot;
        let x: Iu = if rot == 0 {
            hi
        } else {
            lo
        };
        let mut i: usize = 0;
        while i < m.len()
            invariant
                i <= m.len(),
                sc.wf(),
                members_wf(items@, m@),
                *self == *old(self),
                items_wf(self@, items@),
                x == target_of(items@, m@),
                forall|k: int|
                    0 <= k < i ==> may_move(*sc, self@, items@[#[trigger] m@[k] as int], x),
            decreases m.len() - i,
        {
            if !self.can_move(sc, &items[m[i]], x) {
                proof {
                    assert(!may_move(*sc, self@, items@[m@[i as int] as int], x));
                    assert(!all_may_move(*sc, self@, items@, m@, x));
                }
                return;
            }
            i = i + 1;
        }
        if !self.trial_boxes_clear(sc, items, m, x) {
            return;
        }
        let ghost d0 = self@;
        let mut n: usize = 0;
        while n < m.len()
            invariant
                n <= m.len(),
                members_wf(items@, m@),
                items_wf(self@, items@),
                rot == items@[m@[0] as int].rot,
                self@ == d0.members_moved(items@, m@, x, n as int),
            decreases m.len() - n,
        {
            let it: &AlignItem = &items[m[n]];
            let b: BBox = Canvas::moved_box_of(items, m, x, n);
            proof {
                assert(item_wf(self@, items@[m@[n as int] as int]));
                lemma_move_keeps(self@, items@, m@, x, n as int);
            }
            self.move_label(it, x);
            self.grow_stub(it, x);
            self.move_box(it, rot, b);
            n = n + 1;
        }
    }

    /// Pull sibling labels onto common columns.
    pub fn align_sibling_ports(&mut self, sc: &Scene)
        requires
            sc.wf(),
        ensures
            final(self)@ == siblings_aligned(*sc, old(self)@),
    {
        if !sc.cfg.align_sibling_ports {
            return;
        }
        let items: Vec<AlignItem> = self.collect_align_items(sc);
        let groups: Vec<Vec<usize>> = group_stubs(&items);
        let ghost gs = rows(groups@);
        let ghost d0 = self@;
        let window: i64 = 20 * sc.cfg.grid_mm as i64 + EPS;
        let mut n: usize = 0;
        while n < groups.len()
            invariant
                n <= groups.len(),
                sc.wf(),
                gs == rows(groups@),
                rows_wf(gs, items@.len() as int),
                window == 20 * sc.cfg.grid_mm + EPS,
                items_wf(self@, items@),
                self@ == stubs_aligned(*sc, d0, items@, gs, n as int),
            decreases groups.len() - n,
        {
            let m: &Vec<usize> = &groups[n];
            proof {
                assert(gs[n as int] == m@);
            }
            let (lo, hi): (Iu, Iu) = edges_of(&items, m);
            let wide: i64 = hi as i64 - lo as i64;
            if m.len() >= 2 && EPS < wide && wide <= window {
                self.try_align_cluster(sc, &items, m);
            }
            n = n + 1;
        }
        let ghost d1 = self@;
        let list: Vec<usize> = pick_items(&items, false);
        let roots: Vec<usize> = find_classes(sc, &items, &list);
        let mut n: usize = 0;
        while n < list.len()
            invariant
                n <= list.len(),
                sc.wf(),
                forall|i: int| 0 <= i < list@.len() ==> #[trigger] list@[i] < items@.len(),
                roots@.len() == list@.len(),
                items_wf(self@, items@),
                self@ == classes_aligned(*sc, d1, items@, list@, roots@, n as int),
            decreases list.len() - n,
        {
            let mut m: Vec<usize> = Vec::new();
            let mut k: usize = 0;
            while k < list.len()
                invariant
                    k <= list.len(),
                    roots@.len() == list@.len(),
                    forall|i: int| 0 <= i < list@.len() ==> #[trigger] list@[i] < items@.len(),
                    m@ == class_of(list@, roots@, n as int, k as int),
                    forall|i: int| 0 <= i < m@.len() ==> #[trigger] m@[i] < items@.len(),
                decreases list.len() - k,
            {
                if roots[k] == n {
                    m.push(list[k]);
                }
                k = k + 1;
            }
            let (lo, hi): (Iu, Iu) = edges_of(&items, &m);
            if m.len() >= 2 && hi as i64 - lo as i64 > EPS {
                self.try_align_cluster(sc, &items, &m);
            }
            n = n + 1;
        }
    }
}

} // verus!
