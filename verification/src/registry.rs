//! What already lies on a sheet, and whether a new wire or text would disturb it.

use vstd::prelude::*;
use crate::config::SchConfig;
use crate::geometry::{bx, make_box, overlaps, spec_overlaps, BBox};
use crate::model::DesignModel;
use crate::place::{body_of, placed_wf, raw_box_of, PlacedComp};
use crate::text::Text;
use crate::units::{
    gap, greater, lesser, meet, spec_gap, spec_max, spec_meet, spec_min, Iu, Point, EPS,
};
use crate::wiring::{
    mk_span, point_on_seg, seg_intersects_box, segs_cross_frank, segs_touch_forbidden, span,
    spec_cross, spec_cuts, spec_on, spec_touch, Seg, Span,
};

verus! {

/// A pin end on the sheet.
#[derive(Debug)]
pub struct RegPin {
    pub at: Point,
    pub net: Text,
}

/// A box that belongs to a net.
#[derive(Debug)]
pub struct NetBox {
    pub bbox: BBox,
    pub net: String,
}

/// Box of a text that was placed, with the nets that may run under it.
#[derive(Debug)]
pub struct LabelBox {
    pub bbox: BBox,
    pub net: Text,
    /// Further nets that may run under the text.
    pub also: Box<[String]>,
}

impl LabelBox {
    pub open spec fn spec_allows(self, net: Seq<char>) -> bool {
        self.net@ == net || exists|i: int|
            0 <= i < self.also@.len() && (#[trigger] self.also@[i])@ == net
    }

    /// May the net run under this text?
    pub fn allows(&self, net: &String) -> (r: bool)
        ensures
            r == self.spec_allows(net@),
    {
        if self.net.is(net.as_str()) {
            return true;
        }
        let mut i: usize = 0;
        while i < self.also.len()
            invariant
                i <= self.also.len(),
                self.net@ != net@,
                forall|k: int| 0 <= k < i ==> (#[trigger] self.also@[k])@ != net@,
            decreases self.also.len() - i,
        {
            if self.also[i] == *net {
                return true;
            }
            i = i + 1;
        }
        false
    }
}

/// Predicted extent of a power connection.
#[derive(Clone, Copy, Debug, PartialEq, Eq, Structural)]
pub enum CorridorZone {
    /// The path from the pin to the symbol.
    Corridor,
    /// The drawing of the symbol.
    Graphic,
}

#[derive(Debug)]
pub struct Corridor {
    pub bbox: BBox,
    pub net: String,
    /// The placed component whose pin is connected.
    pub owner: usize,
    pub zone: CorridorZone,
}

/// Everything electrical or textual that already lies on the sheet.
#[derive(Debug)]
pub struct Reg {
    pub segs: Vec<Seg>,
    pub pins: Vec<RegPin>,
    pub power_boxes: Vec<NetBox>,
    /// Labels that were placed along with wires.
    pub label_boxes: Vec<NetBox>,
    /// Texts that lay on the sheet before any wire.
    pub text_boxes: Vec<LabelBox>,
}

/// The contents of a [`Reg`].
pub struct RegView {
    pub segs: Seq<Seg>,
    pub pins: Seq<RegPin>,
    pub power_boxes: Seq<NetBox>,
    pub label_boxes: Seq<NetBox>,
    pub text_boxes: Seq<LabelBox>,
}

impl View for Reg {
    type V = RegView;

    open spec fn view(&self) -> RegView {
        RegView {
            segs: self.segs@,
            pins: self.pins@,
            power_boxes: self.power_boxes@,
            label_boxes: self.label_boxes@,
            text_boxes: self.text_boxes@,
        }
    }
}

// ---------------------------------------------------------------- adding wires

/// Is leg `i` of a path long enough to be a wire?
pub open spec fn is_leg(path: Seq<Point>, i: int) -> bool {
    0 <= i < path.len() - 1 && !spec_meet(path[i], path[i + 1])
}

/// The legs of the first `n` pairs of points of a path.
pub open spec fn legs(path: Seq<Point>, n: int) -> Seq<Span>
    decreases n,
{
    if n <= 0 || n >= path.len() {
        Seq::empty()
    } else if is_leg(path, n - 1) {
        legs(path, n - 1).push(span(path[n - 1], path[n]))
    } else {
        legs(path, n - 1)
    }
}

/// `segs` with the legs of the path added as wires of `net`.
pub open spec fn with_path(segs: Seq<Seg>, path: Seq<Point>, net: String) -> Seq<Seg> {
    segs + Seq::new(
        legs(path, path.len() - 1).len(),
        |i: int| Seg { span: legs(path, path.len() - 1)[i], net },
    )
}

impl Reg {
    pub fn new(text_boxes: Vec<LabelBox>) -> (r: Reg)
        ensures
            r@ == (RegView {
                segs: Seq::empty(),
                pins: Seq::empty(),
                power_boxes: Seq::empty(),
                label_boxes: Seq::empty(),
                text_boxes: text_boxes@,
            }),
    {
        Reg {
            segs: Vec::new(),
            pins: Vec::new(),
            power_boxes: Vec::new(),
            label_boxes: Vec::new(),
            text_boxes,
        }
    }

    /// Add the legs of a path as wires of `net`.
    pub fn register_path(&mut self, path: &Vec<Point>, net: &String)
        ensures
            final(self)@ == (RegView { segs: with_path(old(self)@.segs, path@, *net), ..old(self)@ }),
    {
        let ghost before = self.segs@;
        proof {
            assert(self.segs@ =~= before + Seq::new(
                legs(path@, 0).len(),
                |j: int| Seg { span: legs(path@, 0)[j], net: *net },
            ));
        }
        if path.len() > 0 {
            let mut i: usize = 0;
            while i < path.len() - 1
                invariant
                    i <= path.len() - 1,
                    self.segs@ == before + Seq::new(
                        legs(path@, i as int).len(),
                        |j: int| Seg { span: legs(path@, i as int)[j], net: *net },
                    ),
                    self.pins == old(self).pins,
                    self.power_boxes == old(self).power_boxes,
                    self.label_boxes == old(self).label_boxes,
                    self.text_boxes == old(self).text_boxes,
                decreases path.len() - i,
            {
                if !meet(path[i], path[i + 1]) {
                    self.segs.push(Seg { span: mk_span(path[i], path[i + 1]), net: net.clone() });
                }
                i = i + 1;
                proof {
                    assert(self.segs@ =~= before + Seq::new(
                        legs(path@, i as int).len(),
                        |j: int| Seg { span: legs(path@, i as int)[j], net: *net },
                    ));
                }
            }
        }
        proof {
            assert(self.segs@ =~= with_path(before, path@, *net));
        }
    }
}

// ---------------------------------------------------------------- crossings

/// A count that stays at the largest machine integer.
pub open spec fn capped(n: nat) -> usize {
    if n > usize::MAX {
        usize::MAX
    } else {
        n as usize
    }
}

/// Frank crossings of a run with the first `n` wires, but for those of the net `own`.
pub open spec fn crossings_of(segs: Seq<Seg>, s: Span, own: Option<Seq<char>>, n: int) -> nat
    decreases n,
{
    if n <= 0 || n > segs.len() {
        0
    } else {
        crossings_of(segs, s, own, n - 1) + (if own != Some(segs[n - 1].net@) && spec_cross(
            s,
            segs[n - 1].span,
        ) {
            1nat
        } else {
            0
        })
    }
}

/// Frank crossings of the first `n` legs of a path.
pub open spec fn crossings_upto(
    segs: Seq<Seg>,
    path: Seq<Point>,
    own: Option<Seq<char>>,
    n: int,
) -> nat
    decreases n,
{
    if n <= 0 || n >= path.len() {
        0
    } else {
        crossings_upto(segs, path, own, n - 1) + (if is_leg(path, n - 1) {
            crossings_of(segs, span(path[n - 1], path[n]), own, segs.len() as int)
        } else {
            0
        })
    }
}

/// Frank crossings of a path with the wires, but for those of the net `own`.
pub open spec fn crossings(segs: Seq<Seg>, path: Seq<Point>, own: Option<Seq<char>>) -> nat {
    crossings_upto(segs, path, own, path.len() - 1)
}

/// Does some leg of the path cross a wire of its own net?
pub open spec fn self_crossing(segs: Seq<Seg>, path: Seq<Point>, net: Seq<char>) -> bool {
    exists|i: int, k: int|
        #![trigger is_leg(path, i), segs[k]]
        is_leg(path, i) && 0 <= k < segs.len() && segs[k].net@ == net && spec_cross(
            span(path[i], path[i + 1]),
            segs[k].span,
        )
}

impl Reg {
    fn count(&self, path: &Vec<Point>, own: Option<&String>) -> (r: usize)
        ensures
            r == capped(
                crossings(
                    self.segs@,
                    path@,
                    match own {
                        Some(n) => Some(n@),
                        None => None,
                    },
                ),
            ),
    {
        let ghost skip: Option<Seq<char>> = match own {
            Some(n) => Some(n@),
            None => None,
        };
        let mut n: usize = 0;
        if path.len() == 0 {
            return 0;
        }
        let mut i: usize = 0;
        while i < path.len() - 1
            invariant
                i <= path.len() - 1,
                n == capped(crossings_upto(self.segs@, path@, skip, i as int)),
                skip == (match own {
                    Some(n) => Some(n@),
                    None => None::<Seq<char>>,
                }),
            decreases path.len() - i,
        {
            if !meet(path[i], path[i + 1]) {
                let s: Span = mk_span(path[i], path[i + 1]);
                let ghost base = crossings_upto(self.segs@, path@, skip, i as int);
                let mut k: usize = 0;
                while k < self.segs.len()
                    invariant
                        k <= self.segs.len(),
                        n == capped(base + crossings_of(self.segs@, s, skip, k as int)),
                        skip == (match own {
                            Some(n) => Some(n@),
                            None => None::<Seq<char>>,
                        }),
                    decreases self.segs.len() - k,
                {
                    let counted: bool = match own {
                        Some(net) => self.segs[k].net != *net,
                        None => true,
                    };
                    if counted && segs_cross_frank(&s, &self.segs[k].span) && n < usize::MAX {
                        n = n + 1;
                    }
                    k = k + 1;
                }
            }
            i = i + 1;
        }
        n
    }

    /// Frank crossings of a path with any wire.
    pub fn count_crossings(&self, path: &Vec<Point>) -> (r: usize)
        ensures
            r == capped(crossings(self.segs@, path@, None)),
    {
        self.count(path, None)
    }

    /// Frank crossings of a path with wires of other nets.
    pub fn foreign_crossings(&self, path: &Vec<Point>, net: &String) -> (r: usize)
        ensures
            r == capped(crossings(self.segs@, path@, Some(net@))),
    {
        self.count(path, Some(net))
    }

    /// Does the path cross a wire of its own net without a junction?
    pub fn same_net_frank_crossing(&self, path: &Vec<Point>, net: &String) -> (r: bool)
        ensures
            r == self_crossing(self.segs@, path@, net@),
    {
        if path.len() == 0 {
            return false;
        }
        let mut i: usize = 0;
        while i < path.len() - 1
            invariant
                i <= path.len() - 1,
                forall|j: int, k: int|
                    #![trigger is_leg(path@, j), self.segs@[k]]
                    0 <= j < i && is_leg(path@, j) && 0 <= k < self.segs@.len()
                        && self.segs@[k].net@ == net@ ==> !spec_cross(
                        span(path@[j], path@[j + 1]),
                        self.segs@[k].span,
                    ),
            decreases path.len() - i,
        {
            if !meet(path[i], path[i + 1]) {
                let s: Span = mk_span(path[i], path[i + 1]);
                let mut k: usize = 0;
                while k < self.segs.len()
                    invariant
                        k <= self.segs.len(),
                        i < path.len() - 1,
                        is_leg(path@, i as int),
                        s == span(path@[i as int], path@[i + 1]),
                        forall|m: int|
                            #![trigger self.segs@[m]]
                            0 <= m < k && self.segs@[m].net@ == net@ ==> !spec_cross(
                                s,
                                self.segs@[m].span,
                            ),
                    decreases self.segs.len() - k,
                {
                    if self.segs[k].net == *net && segs_cross_frank(&s, &self.segs[k].span) {
                        return true;
                    }
                    k = k + 1;
                }
            }
            i = i + 1;
        }
        false
    }
}

// ---------------------------------------------------------------- clearances of a wire

/// No pin of another net lies on the run.
pub open spec fn clear_of_pins(pins: Seq<RegPin>, s: Span, net: Seq<char>) -> bool {
    forall|k: int|
        0 <= k < pins.len() ==> (#[trigger] pins[k]).net@ == net || !spec_on(
            pins[k].at.x as int,
            pins[k].at.y as int,
            s,
        )
}

/// No wire of another net touches the run.
pub open spec fn clear_of_wires(segs: Seq<Seg>, s: Span, net: Seq<char>) -> bool {
    forall|k: int|
        0 <= k < segs.len() ==> (#[trigger] segs[k]).net@ == net || !spec_touch(s, segs[k].span)
}

/// No box of another net is cut.
pub open spec fn clear_of_symbols(boxes: Seq<NetBox>, s: Span, net: Seq<char>) -> bool {
    forall|k: int|
        0 <= k < boxes.len() ==> (#[trigger] boxes[k]).net@ == net || !spec_cuts(s, boxes[k].bbox)
}

/// No text that does not let the net through is cut.
pub open spec fn clear_of_inscriptions(boxes: Seq<LabelBox>, s: Span, net: Seq<char>) -> bool {
    forall|k: int|
        0 <= k < boxes.len() ==> (#[trigger] boxes[k]).spec_allows(net) || !spec_cuts(
            s,
            boxes[k].bbox,
        )
}

/// No text of another net is cut.
pub open spec fn clear_of_texts(reg: RegView, s: Span, net: Seq<char>) -> bool {
    clear_of_inscriptions(reg.text_boxes, s, net) && clear_of_symbols(reg.label_boxes, s, net)
}

/// The box that a run sweeps, taken in by [`EPS`] on every side.
pub open spec fn sweep(s: Span) -> BBox {
    bx(
        spec_min(s.x1 as int, s.x2 as int) + EPS,
        spec_min(s.y1 as int, s.y2 as int) + EPS,
        spec_max(s.x1 as int, s.x2 as int) - EPS,
        spec_max(s.y1 as int, s.y2 as int) - EPS,
    )
}

pub fn sweep_of(s: &Span) -> (b: BBox)
    ensures
        b == sweep(*s),
{
    make_box(
        lesser(s.x1, s.x2) as i64 + EPS,
        lesser(s.y1, s.y2) as i64 + EPS,
        greater(s.x1, s.x2) as i64 - EPS,
        greater(s.y1, s.y2) as i64 - EPS,
    )
}

/// The run passes through no component but the listed ones.
pub open spec fn clear_of_bodies(
    design: DesignModel,
    placed: Seq<PlacedComp>,
    s: Span,
    except: Seq<usize>,
) -> bool {
    forall|k: int|
        #![trigger placed[k]]
        0 <= k < placed.len() ==> (exists|e: int| 0 <= e < except.len() && #[trigger] except[e] == k)
            || !spec_overlaps(body_of(design, placed[k]), sweep(s))
}

/// The run makes no contact with another net.
pub open spec fn electrically_clear(reg: RegView, s: Span, net: Seq<char>) -> bool {
    clear_of_pins(reg.pins, s, net) && clear_of_wires(reg.segs, s, net)
}

/// The run makes no contact and covers nothing.
pub open spec fn run_clear(
    reg: RegView,
    design: DesignModel,
    placed: Seq<PlacedComp>,
    s: Span,
    net: Seq<char>,
    except: Seq<usize>,
) -> bool {
    electrically_clear(reg, s, net) && clear_of_symbols(reg.power_boxes, s, net) && clear_of_texts(
        reg,
        s,
        net,
    ) && clear_of_bodies(design, placed, s, except)
}

/// Every leg of the path makes no contact and covers nothing.
pub open spec fn path_clear(
    reg: RegView,
    design: DesignModel,
    placed: Seq<PlacedComp>,
    path: Seq<Point>,
    net: Seq<char>,
    except: Seq<usize>,
) -> bool {
    forall|i: int|
        #[trigger] is_leg(path, i) ==> run_clear(
            reg,
            design,
            placed,
            span(path[i], path[i + 1]),
            net,
            except,
        )
}

/// No leg of the path makes contact with another net.
pub open spec fn path_safe(reg: RegView, path: Seq<Point>, net: Seq<char>) -> bool {
    forall|i: int|
        #[trigger] is_leg(path, i) ==> electrically_clear(reg, span(path[i], path[i + 1]), net)
}

fn listed(except: &Vec<usize>, k: usize) -> (r: bool)
    ensures
        r == exists|e: int| 0 <= e < except@.len() && #[trigger] except@[e] == k,
{
    let mut e: usize = 0;
    while e < except.len()
        invariant
            e <= except.len(),
            forall|j: int| 0 <= j < e ==> #[trigger] except@[j] != k,
        decreases except.len() - e,
    {
        if except[e] == k {
            return true;
        }
        e = e + 1;
    }
    false
}

impl Reg {
    fn run_safe(&self, s: &Span, net: &String) -> (r: bool)
        ensures
            r == electrically_clear(self@, *s, net@),
    {
        let mut k: usize = 0;
        while k < self.pins.len()
            invariant
                k <= self.pins.len(),
                forall|m: int|
                    0 <= m < k ==> (#[trigger] self.pins@[m]).net@ == net@ || !spec_on(
                        self.pins@[m].at.x as int,
                        self.pins@[m].at.y as int,
                        *s,
                    ),
            decreases self.pins.len() - k,
        {
            if point_on_seg(self.pins[k].at.x, self.pins[k].at.y, s) && !self.pins[k].net.is(
                net.as_str(),
            ) {
                return false;
            }
            k = k + 1;
        }
        let mut k: usize = 0;
        while k < self.segs.len()
            invariant
                k <= self.segs.len(),
                clear_of_pins(self.pins@, *s, net@),
                forall|m: int|
                    0 <= m < k ==> (#[trigger] self.segs@[m]).net@ == net@ || !spec_touch(
                        *s,
                        self.segs@[m].span,
                    ),
            decreases self.segs.len() - k,
        {
            if self.segs[k].net != *net && segs_touch_forbidden(s, &self.segs[k].span) {
                return false;
            }
            k = k + 1;
        }
        true
    }

    fn run_covers_nothing(&self, s: &Span, net: &String) -> (r: bool)
        ensures
            r == (clear_of_symbols(self.power_boxes@, *s, net@) && clear_of_texts(
                self@,
                *s,
                net@,
            )),
    {
        let mut k: usize = 0;
        while k < self.power_boxes.len()
            invariant
                k <= self.power_boxes.len(),
                forall|m: int|
                    0 <= m < k ==> (#[trigger] self.power_boxes@[m]).net@ == net@ || !spec_cuts(
                        *s,
                        self.power_boxes@[m].bbox,
                    ),
            decreases self.power_boxes.len() - k,
        {
            if self.power_boxes[k].net != *net && seg_intersects_box(s, &self.power_boxes[k].bbox) {
                return false;
            }
            k = k + 1;
        }
        let mut k: usize = 0;
        while k < self.text_boxes.len()
            invariant
                k <= self.text_boxes.len(),
                forall|m: int|
                    0 <= m < k ==> (#[trigger] self.text_boxes@[m]).spec_allows(net@)
                        || !spec_cuts(*s, self.text_boxes@[m].bbox),
            decreases self.text_boxes.len() - k,
        {
            if !self.text_boxes[k].allows(net) && seg_intersects_box(s, &self.text_boxes[k].bbox) {
                return false;
            }
            k = k + 1;
        }
        let mut k: usize = 0;
        while k < self.label_boxes.len()
            invariant
                k <= self.label_boxes.len(),
                forall|m: int|
                    0 <= m < k ==> (#[trigger] self.label_boxes@[m]).net@ == net@ || !spec_cuts(
                        *s,
                        self.label_boxes@[m].bbox,
                    ),
            decreases self.label_boxes.len() - k,
        {
            if self.label_boxes[k].net != *net && seg_intersects_box(s, &self.label_boxes[k].bbox) {
                return false;
            }
            k = k + 1;
        }
        true
    }

    fn run_misses_bodies(
        design: &DesignModel,
        placed: &[PlacedComp],
        s: &Span,
        except: &Vec<usize>,
    ) -> (r: bool)
        requires
            placed_wf(*design, placed@),
        ensures
            r == clear_of_bodies(*design, placed@, *s, except@),
    {
        let swept: BBox = sweep_of(s);
        let mut k: usize = 0;
        while k < placed.len()
            invariant
                k <= placed.len(),
                placed_wf(*design, placed@),
                swept == sweep(*s),
                forall|m: int|
                    #![trigger placed@[m]]
                    0 <= m < k ==> (exists|e: int|
                        0 <= e < except@.len() && #[trigger] except@[e] == m) || !spec_overlaps(
                        body_of(*design, placed@[m]),
                        sweep(*s),
                    ),
            decreases placed.len() - k,
        {
            if !listed(except, k) {
                let body: BBox = raw_box_of(design, &placed[k]);
                if overlaps(&body, &swept) {
                    return false;
                }
            }
            k = k + 1;
        }
        true
    }

    /// Does every leg of the path make no contact and cover nothing? The bodies of the listed
    /// components do not count.
    pub fn path_ok(
        &self,
        design: &DesignModel,
        placed: &[PlacedComp],
        path: &Vec<Point>,
        net: &String,
        except: &Vec<usize>,
    ) -> (r: bool)
        requires
            placed_wf(*design, placed@),
        ensures
            r == path_clear(self@, *design, placed@, path@, net@, except@),
    {
        if path.len() == 0 {
            return true;
        }
        let mut i: usize = 0;
        while i < path.len() - 1
            invariant
                i <= path.len() - 1,
                placed_wf(*design, placed@),
                forall|j: int|
                    0 <= j < i && #[trigger] is_leg(path@, j) ==> run_clear(
                        self@,
                        *design,
                        placed@,
                        span(path@[j], path@[j + 1]),
                        net@,
                        except@,
                    ),
            decreases path.len() - i,
        {
            if !meet(path[i], path[i + 1]) {
                let s: Span = mk_span(path[i], path[i + 1]);
                if !self.run_safe(&s, net) || !self.run_covers_nothing(&s, net)
                    || !Reg::run_misses_bodies(design, placed, &s, except) {
                    proof {
                        assert(is_leg(path@, i as int));
                    }
                    return false;
                }
            }
            i = i + 1;
        }
        true
    }

    /// Does no leg of the path make contact with another net?
    pub fn path_electrically_clean(&self, path: &Vec<Point>, net: &String) -> (r: bool)
        ensures
            r == path_safe(self@, path@, net@),
    {
        if path.len() == 0 {
            return true;
        }
        let mut i: usize = 0;
        while i < path.len() - 1
            invariant
                i <= path.len() - 1,
                forall|j: int|
                    0 <= j < i && #[trigger] is_leg(path@, j) ==> electrically_clear(
                        self@,
                        span(path@[j], path@[j + 1]),
                        net@,
                    ),
            decreases path.len() - i,
        {
            if !meet(path[i], path[i + 1]) {
                let s: Span = mk_span(path[i], path[i + 1]);
                if !self.run_safe(&s, net) {
                    proof {
                        assert(is_leg(path@, i as int));
                    }
                    return false;
                }
            }
            i = i + 1;
        }
        true
    }
}

// ---------------------------------------------------------------- spacing of parallel wires

/// Two parallel runs that share a stretch and lie apart by less than `least`.
pub open spec fn too_close(s: Span, o: Span, least: int) -> bool {
    s.spec_horizontal() == o.spec_horizontal() && if s.spec_horizontal() {
        &&& EPS <= spec_gap(s.y1 as int, o.y1 as int) < least - EPS
        &&& spec_max(spec_min(s.x1 as int, s.x2 as int), spec_min(o.x1 as int, o.x2 as int))
            < spec_min(spec_max(s.x1 as int, s.x2 as int), spec_max(o.x1 as int, o.x2 as int))
            - EPS
    } else {
        &&& EPS <= spec_gap(s.x1 as int, o.x1 as int) < least - EPS
        &&& spec_max(spec_min(s.y1 as int, s.y2 as int), spec_min(o.y1 as int, o.y2 as int))
            < spec_min(spec_max(s.y1 as int, s.y2 as int), spec_max(o.y1 as int, o.y2 as int))
            - EPS
    }
}

fn is_too_close(s: &Span, o: &Span, least: Iu) -> (r: bool)
    ensures
        r == too_close(*s, *o, least as int),
{
    if s.horizontal() != o.horizontal() {
        return false;
    }
    if s.horizontal() {
        let d: i64 = gap(s.y1, o.y1);
        if d < EPS || d >= least as i64 - EPS {
            return false;
        }
        let lo: Iu = greater(lesser(s.x1, s.x2), lesser(o.x1, o.x2));
        let hi: Iu = lesser(greater(s.x1, s.x2), greater(o.x1, o.x2));
        (lo as i64) < hi as i64 - EPS
    } else {
        let d: i64 = gap(s.x1, o.x1);
        if d < EPS || d >= least as i64 - EPS {
            return false;
        }
        let lo: Iu = greater(lesser(s.y1, s.y2), lesser(o.y1, o.y2));
        let hi: Iu = lesser(greater(s.y1, s.y2), greater(o.y1, o.y2));
        (lo as i64) < hi as i64 - EPS
    }
}

/// The path keeps the configured distance from every parallel wire of another net.
pub open spec fn well_spaced(cfg: SchConfig, segs: Seq<Seg>, path: Seq<Point>, net: Seq<char>) -> bool {
    cfg.spec_min_net_spacing() <= EPS || forall|i: int, k: int|
        #![trigger is_leg(path, i), segs[k]]
        is_leg(path, i) && 0 <= k < segs.len() && segs[k].net@ != net ==> !too_close(
            span(path[i], path[i + 1]),
            segs[k].span,
            cfg.spec_min_net_spacing() as int,
        )
}

impl Reg {
    /// Does the path keep its distance from the parallel wires of other nets?
    pub fn parallel_clear(&self, cfg: &SchConfig, path: &Vec<Point>, net: &String) -> (r: bool)
        ensures
            r == well_spaced(*cfg, self.segs@, path@, net@),
    {
        let least: Iu = cfg.min_net_spacing_mm();
        if least as i64 <= EPS || path.len() == 0 {
            return true;
        }
        let mut i: usize = 0;
        while i < path.len() - 1
            invariant
                i <= path.len() - 1,
                least == cfg.spec_min_net_spacing(),
                least as int > EPS,
                forall|j: int, k: int|
                    #![trigger is_leg(path@, j), self.segs@[k]]
                    0 <= j < i && is_leg(path@, j) && 0 <= k < self.segs@.len()
                        && self.segs@[k].net@ != net@ ==> !too_close(
                        span(path@[j], path@[j + 1]),
                        self.segs@[k].span,
                        least as int,
                    ),
            decreases path.len() - i,
        {
            if !meet(path[i], path[i + 1]) {
                let s: Span = mk_span(path[i], path[i + 1]);
                let mut k: usize = 0;
                while k < self.segs.len()
                    invariant
                        k <= self.segs.len(),
                        i < path.len() - 1,
                        is_leg(path@, i as int),
                        s == span(path@[i as int], path@[i + 1]),
                        least == cfg.spec_min_net_spacing(),
                        least as int > EPS,
                        forall|m: int|
                            #![trigger self.segs@[m]]
                            0 <= m < k && self.segs@[m].net@ != net@ ==> !too_close(
                                s,
                                self.segs@[m].span,
                                least as int,
                            ),
                    decreases self.segs.len() - k,
                {
                    if self.segs[k].net != *net && is_too_close(&s, &self.segs[k].span, least) {
                        return false;
                    }
                    k = k + 1;
                }
            }
            i = i + 1;
        }
        true
    }
}

// ---------------------------------------------------------------- clearances of a box

/// Is the point inside the box, clear of its edges?
pub open spec fn well_inside(p: Point, b: BBox) -> bool {
    b.x1 + EPS < p.x < b.x2 - EPS && b.y1 + EPS < p.y < b.y2 - EPS
}

fn is_well_inside(p: Point, b: &BBox) -> (r: bool)
    ensures
        r == well_inside(p, *b),
{
    let x: i64 = p.x as i64;
    let y: i64 = p.y as i64;
    b.x1 as i64 + EPS < x && x < b.x2 as i64 - EPS && b.y1 as i64 + EPS < y && y < b.y2 as i64
        - EPS
}

/// The box covers no pin of another net.
pub open spec fn box_misses_pins(pins: Seq<RegPin>, b: BBox, net: Seq<char>) -> bool {
    forall|k: int|
        0 <= k < pins.len() ==> (#[trigger] pins[k]).net@ == net || !well_inside(pins[k].at, b)
}

/// The box covers no wire of another net.
pub open spec fn box_misses_wires(segs: Seq<Seg>, b: BBox, net: Seq<char>) -> bool {
    forall|k: int|
        0 <= k < segs.len() ==> (#[trigger] segs[k]).net@ == net || !spec_cuts(segs[k].span, b)
}

/// The box meets no listed box, but for those of its own net where `strict` is off.
pub open spec fn box_misses_boxes(
    boxes: Seq<NetBox>,
    b: BBox,
    net: Seq<char>,
    strict: bool,
) -> bool {
    forall|k: int|
        0 <= k < boxes.len() ==> (!strict && (#[trigger] boxes[k]).net@ == net) || !spec_overlaps(
            boxes[k].bbox,
            b,
        )
}

/// The box covers no listed text, but for those that let the net through where `strict` is off.
pub open spec fn box_misses_inscriptions(
    boxes: Seq<LabelBox>,
    b: BBox,
    net: Seq<char>,
    strict: bool,
) -> bool {
    forall|k: int|
        0 <= k < boxes.len() ==> (!strict && (#[trigger] boxes[k]).spec_allows(net))
            || !spec_overlaps(boxes[k].bbox, b)
}

/// The box covers no pin, wire or power symbol of another net.
pub open spec fn box_clear_of_nets(reg: RegView, b: BBox, net: Seq<char>) -> bool {
    box_misses_pins(reg.pins, b, net) && box_misses_wires(reg.segs, b, net) && box_misses_boxes(
        reg.power_boxes,
        b,
        net,
        false,
    )
}

/// The box covers no text, but for texts that let the net through where `strict` is off.
pub open spec fn box_clear_of_texts(reg: RegView, b: BBox, net: Seq<char>, strict: bool) -> bool {
    box_misses_inscriptions(reg.text_boxes, b, net, strict) && box_misses_boxes(
        reg.label_boxes,
        b,
        net,
        strict,
    )
}

/// The box of a power symbol disturbs nothing of another net.
#[verifier::opaque]
pub open spec fn graphic_clear(reg: RegView, b: BBox, net: Seq<char>) -> bool {
    box_clear_of_nets(reg, b, net) && box_clear_of_texts(reg, b, net, false)
}

/// The box covers no component.
pub open spec fn box_clear_of_bodies(
    design: DesignModel,
    placed: Seq<PlacedComp>,
    b: BBox,
) -> bool {
    forall|k: int|
        0 <= k < placed.len() ==> !spec_overlaps(body_of(design, #[trigger] placed[k]), b)
}

/// The box lies on no predicted power path of another net.
pub open spec fn box_clear_of_corridors(corridors: Seq<Corridor>, b: BBox, net: Seq<char>) -> bool {
    forall|k: int|
        0 <= k < corridors.len() ==> (#[trigger] corridors[k]).zone != CorridorZone::Corridor
            || corridors[k].net@ == net || !spec_overlaps(corridors[k].bbox, b)
}

/// A label may be drawn in the box.
pub open spec fn label_clear(
    reg: RegView,
    design: DesignModel,
    placed: Seq<PlacedComp>,
    corridors: Seq<Corridor>,
    b: BBox,
    net: Seq<char>,
    strict: bool,
) -> bool {
    box_clear_of_bodies(design, placed, b) && box_clear_of_nets(reg, b, net) && box_clear_of_texts(
        reg,
        b,
        net,
        strict,
    ) && box_clear_of_corridors(corridors, b, net)
}

impl Reg {
    fn box_misses_nets(&self, b: &BBox, net: &String) -> (r: bool)
        ensures
            r == box_clear_of_nets(self@, *b, net@),
    {
        let mut k: usize = 0;
        while k < self.pins.len()
            invariant
                k <= self.pins.len(),
                forall|m: int|
                    0 <= m < k ==> (#[trigger] self.pins@[m]).net@ == net@ || !well_inside(
                        self.pins@[m].at,
                        *b,
                    ),
            decreases self.pins.len() - k,
        {
            if is_well_inside(self.pins[k].at, b) && !self.pins[k].net.is(net.as_str()) {
                return false;
            }
            k = k + 1;
        }
        let mut k: usize = 0;
        while k < self.segs.len()
            invariant
                k <= self.segs.len(),
                forall|m: int|
                    0 <= m < k ==> (#[trigger] self.segs@[m]).net@ == net@ || !spec_cuts(
                        self.segs@[m].span,
                        *b,
                    ),
            decreases self.segs.len() - k,
        {
            if self.segs[k].net != *net && seg_intersects_box(&self.segs[k].span, b) {
                return false;
            }
            k = k + 1;
        }
        let mut k: usize = 0;
        while k < self.power_boxes.len()
            invariant
                k <= self.power_boxes.len(),
                forall|m: int|
                    0 <= m < k ==> (#[trigger] self.power_boxes@[m]).net@ == net@
                        || !spec_overlaps(self.power_boxes@[m].bbox, *b),
            decreases self.power_boxes.len() - k,
        {
            if self.power_boxes[k].net != *net && overlaps(&self.power_boxes[k].bbox, b) {
                return false;
            }
            k = k + 1;
        }
        true
    }

    fn box_misses_texts(&self, b: &BBox, net: &String, strict: bool) -> (r: bool)
        ensures
            r == box_clear_of_texts(self@, *b, net@, strict),
    {
        let mut k: usize = 0;
        while k < self.text_boxes.len()
            invariant
                k <= self.text_boxes.len(),
                forall|m: int|
                    0 <= m < k ==> (!strict && (#[trigger] self.text_boxes@[m]).spec_allows(net@))
                        || !spec_overlaps(self.text_boxes@[m].bbox, *b),
            decreases self.text_boxes.len() - k,
        {
            if (strict || !self.text_boxes[k].allows(net)) && overlaps(
                &self.text_boxes[k].bbox,
                b,
            ) {
                return false;
            }
            k = k + 1;
        }
        let mut k: usize = 0;
        while k < self.label_boxes.len()
            invariant
                k <= self.label_boxes.len(),
                forall|m: int|
                    0 <= m < k ==> (!strict && (#[trigger] self.label_boxes@[m]).net@ == net@)
                        || !spec_overlaps(self.label_boxes@[m].bbox, *b),
            decreases self.label_boxes.len() - k,
        {
            if (strict || self.label_boxes[k].net != *net) && overlaps(
                &self.label_boxes[k].bbox,
                b,
            ) {
                return false;
            }
            k = k + 1;
        }
        true
    }

    /// Does a power symbol in this box disturb nothing of another net?
    pub fn graphic_box_clear(&self, b: &BBox, net: &String) -> (r: bool)
        ensures
            r == graphic_clear(self@, *b, net@),
    {
        proof {
            reveal(graphic_clear);
        }
        self.box_misses_nets(b, net) && self.box_misses_texts(b, net, false)
    }

    /// Does the box cover no component, no predicted power path, and nothing but texts of
    /// another net?
    pub fn box_clear_but_texts(
        &self,
        design: &DesignModel,
        placed: &[PlacedComp],
        corridors: &[Corridor],
        b: &BBox,
        net: &String,
    ) -> (r: bool)
        requires
            placed_wf(*design, placed@),
        ensures
            r == (box_clear_of_bodies(*design, placed@, *b) && box_clear_of_nets(self@, *b, net@)
                && box_clear_of_corridors(corridors@, *b, net@)),
    {
        let mut k: usize = 0;
        while k < placed.len()
            invariant
                k <= placed.len(),
                placed_wf(*design, placed@),
                forall|m: int|
                    0 <= m < k ==> !spec_overlaps(body_of(*design, #[trigger] placed@[m]), *b),
            decreases placed.len() - k,
        {
            let body: BBox = raw_box_of(design, &placed[k]);
            if overlaps(&body, b) {
                return false;
            }
            k = k + 1;
        }
        if !self.box_misses_nets(b, net) {
            return false;
        }
        let mut k: usize = 0;
        while k < corridors.len()
            invariant
                k <= corridors.len(),
                forall|m: int|
                    0 <= m < k ==> (#[trigger] corridors@[m]).zone != CorridorZone::Corridor
                        || corridors@[m].net@ == net@ || !spec_overlaps(corridors@[m].bbox, *b),
            decreases corridors.len() - k,
        {
            if corridors[k].zone == CorridorZone::Corridor && corridors[k].net != *net
                && overlaps(&corridors[k].bbox, b) {
                return false;
            }
            k = k + 1;
        }
        true
    }

    /// May a label be drawn here without covering anything of another net? With `strict` it may
    /// not cover a text of its own net either.
    pub fn label_box_clear(
        &self,
        design: &DesignModel,
        placed: &[PlacedComp],
        corridors: &[Corridor],
        b: &BBox,
        net: &String,
        strict: bool,
    ) -> (r: bool)
        requires
            placed_wf(*design, placed@),
        ensures
            r == label_clear(self@, *design, placed@, corridors@, *b, net@, strict),
    {
        self.box_clear_but_texts(design, placed, corridors, b, net) && self.box_misses_texts(
            b,
            net,
            strict,
        )
    }
}

} // verus!
