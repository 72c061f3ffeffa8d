//! All texts of a sheet, one component after the other.

use vstd::prelude::*;
use crate::canvas::{list_has, lists};
use crate::config::SchConfig;
use crate::geometry::{overlaps, spec_overlaps, BBox};
use crate::glyphs::{ref_box, ref_text_box, value_box, value_text_box};
use crate::model::{Comp, DesignModel};
use crate::pins::geom_of;
use crate::place::{body_of, raw_box_of, PlacedComp, SheetNet};
use crate::registry::{Corridor, LabelBox, NetBox};
use crate::text::{append_chars, boxed, chars_of, Text};
use crate::textplan::{
    all_pin_marks, static_hit, text_plan, FieldView, OwnedBox, OwnedZone, PinMark, TextField,
    TextPlan,
};
use crate::texts::{
    BoardView,
    board_corridors, canonical, canonical_anchors, comp_zones, own_signal_stub_zones,
    power_stub_corridors, Board,
};
use crate::warning::Warning;

verus! {

// ---------------------------------------------------------------- the field

pub open spec fn raw_boxes(b: BoardView) -> Seq<BBox> {
    Seq::new(b.placed.len(), |i: int| body_of(b.design, b.placed[i]))
}

pub open spec fn owned(zs: Seq<NetBox>, owner: usize) -> Seq<OwnedZone> {
    Seq::new(zs.len(), |i: int| OwnedZone { bbox: zs[i].bbox, net: zs[i].net, owner })
}

/// The zones of the signal stubs of the first `n` components.
pub open spec fn board_zones(b: BoardView, n: int) -> Seq<OwnedZone>
    decreases n,
{
    if n <= 0 || n > b.placed.len() {
        Seq::empty()
    } else {
        board_zones(b, n - 1) + owned(
            comp_zones(
                b,
                n - 1,
                geom_of(b.design, b.placed[n - 1]).pins@.len() as int,
            ).0,
            (n - 1) as usize,
        )
    }
}

/// The field before any place is reserved.
pub open spec fn bare_field(b: BoardView) -> FieldView {
    FieldView {
        raws: raw_boxes(b),
        corridors: board_corridors(b, b.placed.len() as int),
        zones: board_zones(b, b.placed.len() as int),
        reserved: Seq::empty(),
    }
}

/// The field with the canonical places of the first `n` components reserved, where both texts
/// of a component are free there.
pub open spec fn reserved_field(b: BoardView, n: int) -> FieldView
    decreases n,
{
    if n <= 0 || n > b.placed.len() {
        bare_field(b)
    } else {
        let f = reserved_field(b, n - 1);
        let p = b.placed[n - 1];
        let c = b.design.comps@[p.comp as int];
        let (at_r, at_v, right) = canonical(b.cfg, b.design, p);
        let rb = ref_box(c.refdes@.len() as int, at_r, false);
        let vb = value_box(c.value@.len() as int, at_v, right);
        let marks = all_pin_marks(b, n - 1);
        if static_hit(f, marks, n - 1, rb) || static_hit(f, marks, n - 1, vb) {
            f
        } else {
            FieldView {
                reserved: f.reserved.push(
                    OwnedBox { bbox: rb, owner: (n - 1) as usize },
                ).push(OwnedBox { bbox: vb, owner: (n - 1) as usize }),
                ..f
            }
        }
    }
}

/// What the texts of a sheet have to keep clear of.
#[verifier::opaque]
pub open spec fn text_field(b: BoardView) -> FieldView {
    reserved_field(b, b.placed.len() as int)
}

fn build_field(b: &Board) -> (r: TextField)
    requires
        b.wf(),
    ensures
        r@ == text_field(b@),
        r@.raws.len() == b.placed@.len(),
{
    proof {
        reveal(text_field);
    }
    let mut raws: Vec<BBox> = Vec::new();
    let mut zones: Vec<OwnedZone> = Vec::new();
    let mut n: usize = 0;
    while n < b.placed.len()
        invariant
            n <= b.placed.len(),
            b.wf(),
            raws@ =~= raw_boxes(b@).take(n as int),
            zones@ == board_zones(b@, n as int),
        decreases b.placed.len() - n,
    {
        raws.push(raw_box_of(b.design, &b.placed[n]));
        let own: Vec<NetBox> = own_signal_stub_zones(b, n);
        let ghost before = zones@;
        let mut i: usize = 0;
        proof {
            assert(before =~= before + owned(own@, n).take(0));
        }
        while i < own.len()
            invariant
                i <= own.len(),
                zones@ == before + owned(own@, n).take(i as int),
            decreases own.len() - i,
        {
            zones.push(OwnedZone { bbox: own[i].bbox, net: own[i].net.clone(), owner: n });
            i = i + 1;
            proof {
                assert(zones@ =~= before + owned(own@, n).take(i as int));
            }
        }
        proof {
            assert(owned(own@, n).take(i as int) =~= owned(own@, n));
        }
        n = n + 1;
    }
    proof {
        assert(raws@ =~= raw_boxes(b@));
    }
    let corridors: Vec<Corridor> = power_stub_corridors(b);
    let mut f: TextField = TextField { raws, corridors, zones, reserved: Vec::new() };
    let mut n: usize = 0;
    proof {
        assert(f@.reserved =~= Seq::empty());
    }
    while n < b.placed.len()
        invariant
            n <= b.placed.len(),
            b.wf(),
            f@ == reserved_field(b@, n as int),
            f@.raws.len() == b.placed@.len(),
        decreases b.placed.len() - n,
    {
        let p: &PlacedComp = &b.placed[n];
        let c: &Comp = &b.design.comps[p.comp];
        let (at_r, at_v, right) = canonical_anchors(b.cfg, b.design, p);
        let rb: BBox = ref_text_box(c.refdes.as_str(), at_r, false);
        let vb: BBox = value_text_box(c.value.show().as_str(), at_v, right);
        let marks: Vec<PinMark> = crate::textplan::find_pin_marks(b, n);
        if !f.fixed(&marks, n, &rb) && !f.fixed(&marks, n, &vb) {
            f.reserved.push(OwnedBox { bbox: rb, owner: n });
            f.reserved.push(OwnedBox { bbox: vb, owner: n });
        }
        n = n + 1;
    }
    f
}

// ---------------------------------------------------------------- the texts

/// The boxes of the first `n` pairs of texts.
pub open spec fn plan_boxes(plans: Seq<TextPlan>, n: int) -> Seq<BBox>
    decreases n,
{
    if n <= 0 || n > plans.len() {
        Seq::empty()
    } else {
        plan_boxes(plans, n - 1).push(plans[n - 1].ref_box).push(plans[n - 1].value_box)
    }
}

/// The texts of the first `n` components, and what there is to say about them.
pub open spec fn plans_upto(b: BoardView, f: FieldView, n: int) -> (Seq<TextPlan>, Seq<Warning>)
    decreases n,
{
    if n <= 0 || n > b.placed.len() {
        (Seq::empty(), Seq::empty())
    } else {
        let before = plans_upto(b, f, n - 1);
        let t = text_plan(b, f, plan_boxes(before.0, before.0.len() as int), n - 1);
        let refdes = b.design.comps@[b.placed[n - 1].comp as int].refdes;
        (
            before.0.push(t.0),
            if t.1 {
                before.1.push(Warning::TextOverlap { refdes })
            } else {
                before.1
            },
        )
    }
}

/// All texts of a sheet.
pub open spec fn text_plans(b: BoardView) -> (Seq<TextPlan>, Seq<Warning>) {
    plans_upto(b, text_field(b), b.placed.len() as int)
}

// ---------------------------------------------------------------- nets that may run under a text

pub open spec fn tagged(tags: Seq<String>, net: String) -> Seq<String> {
    if lists(tags, net@) {
        tags
    } else {
        tags.push(net)
    }
}

/// The nets of the component's own zones under the text, among the first `n` zones.
pub open spec fn zone_tags(v: Seq<OwnedZone>, pi: int, b: BBox, n: int) -> Seq<String>
    decreases n,
{
    if n <= 0 || n > v.len() {
        Seq::empty()
    } else {
        let before = zone_tags(v, pi, b, n - 1);
        if v[n - 1].owner == pi && spec_overlaps(v[n - 1].bbox, b) {
            tagged(before, v[n - 1].net)
        } else {
            before
        }
    }
}

/// Those, and the nets of the pins under the text.
pub open spec fn mark_tags(tags: Seq<String>, v: Seq<PinMark>, b: BBox, n: int) -> Seq<String>
    decreases n,
{
    if n <= 0 || n > v.len() {
        tags
    } else {
        let before = mark_tags(tags, v, b, n - 1);
        if v[n - 1].net is Some && spec_overlaps(v[n - 1].bbox, b) {
            tagged(before, v[n - 1].net->0)
        } else {
            before
        }
    }
}

/// Those, and the nets of the component's own power connections under the text.
pub open spec fn corridor_tags(tags: Seq<String>, v: Seq<Corridor>, pi: int, b: BBox, n: int) -> Seq<
    String,
>
    decreases n,
{
    if n <= 0 || n > v.len() {
        tags
    } else {
        let before = corridor_tags(tags, v, pi, b, n - 1);
        if v[n - 1].owner == pi && spec_overlaps(v[n - 1].bbox, b) {
            tagged(before, v[n - 1].net)
        } else {
            before
        }
    }
}

/// The nets that may run under a text that could not be kept clear of them.
#[verifier::opaque]
pub open spec fn text_tags(b: BoardView, f: FieldView, pi: int, bbox: BBox, last: bool) -> Seq<String> {
    if !last {
        Seq::empty()
    } else {
        let marks = all_pin_marks(b, pi);
        corridor_tags(
            mark_tags(
                zone_tags(f.zones, pi, bbox, f.zones.len() as int),
                marks,
                bbox,
                marks.len() as int,
            ),
            f.corridors,
            pi,
            bbox,
            f.corridors.len() as int,
        )
    }
}

/// The name under which a text is registered that no net may run under.
pub open spec fn own_text_name(c: Comp) -> Seq<char> {
    (if c.is_net_tie {
        "~soft~"@
    } else {
        "~text~"@
    }) + c.refdes@
}

/// The registered box of a text: for its tags, or for nobody.
#[verifier::opaque]
pub open spec fn registers(l: LabelBox, bbox: BBox, tags: Seq<String>, c: Comp) -> bool {
    l.bbox == bbox && if tags.len() == 0 {
        l.net@ == own_text_name(c) && l.also@.len() == 0
    } else {
        l.net@ == tags[0]@ && l.also@ == tags.skip(1)
    }
}

fn add_tag(tags: &mut Vec<String>, net: &String)
    ensures
        final(tags)@ == tagged(old(tags)@, *net),
{
    if !list_has(tags, net) {
        tags.push(net.clone());
    }
}

fn tags_for(b: &Board, f: &TextField, marks: &Vec<PinMark>, pi: usize, bbox: &BBox, last: bool) -> (r:
    Vec<String>)
    requires
        marks@ == all_pin_marks(b@, pi as int),
    ensures
        r@ == text_tags(b@, f@, pi as int, *bbox, last),
{
    proof {
        reveal(text_tags);
    }
    let mut tags: Vec<String> = Vec::new();
    if !last {
        return tags;
    }
    let mut n: usize = 0;
    while n < f.zones.len()
        invariant
            n <= f.zones.len(),
            tags@ == zone_tags(f.zones@, pi as int, *bbox, n as int),
        decreases f.zones.len() - n,
    {
        if f.zones[n].owner == pi && overlaps(&f.zones[n].bbox, bbox) {
            add_tag(&mut tags, &f.zones[n].net);
        }
        n = n + 1;
    }
    let ghost t1 = tags@;
    let mut n: usize = 0;
    while n < marks.len()
        invariant
            n <= marks.len(),
            tags@ == mark_tags(t1, marks@, *bbox, n as int),
        decreases marks.len() - n,
    {
        match &marks[n].net {
            Some(net) => {
                if overlaps(&marks[n].bbox, bbox) {
                    add_tag(&mut tags, net);
                }
            },
            None => {},
        }
        n = n + 1;
    }
    let ghost t2 = tags@;
    let mut n: usize = 0;
    while n < f.corridors.len()
        invariant
            n <= f.corridors.len(),
            tags@ == corridor_tags(t2, f.corridors@, pi as int, *bbox, n as int),
        decreases f.corridors.len() - n,
    {
        if f.corridors[n].owner == pi && overlaps(&f.corridors[n].bbox, bbox) {
            add_tag(&mut tags, &f.corridors[n].net);
        }
        n = n + 1;
    }
    tags
}

fn register_text(bbox: BBox, tags: Vec<String>, c: &Comp) -> (l: LabelBox)
    ensures
        registers(l, bbox, tags@, *c),
{
    proof {
        reveal(registers);
    }
    if tags.len() == 0 {
        let mut v: Vec<char> = if c.is_net_tie {
            chars_of("~soft~")
        } else {
            chars_of("~text~")
        };
        append_chars(&mut v, &chars_of(c.refdes.as_str()));
        return LabelBox { bbox, net: Text::of_chars(v), also: boxed(Vec::new()) };
    }
    let mut tags: Vec<String> = tags;
    let ghost all = tags@;
    let net: String = tags.remove(0);
    proof {
        assert(tags@ =~= all.skip(1));
    }
    LabelBox { bbox, net: Text::of(net.as_str()), also: boxed(tags) }
}

/// What the text pass leaves for the wires: the boxes of the texts, and the predicted power
/// connections.
#[derive(Debug)]
pub struct TextArtifacts {
    pub label_boxes: Vec<LabelBox>,
    pub corridors: Vec<Corridor>,
}

/// The registered boxes of the first `n` components.
pub open spec fn boxes_match(
    b: BoardView,
    f: FieldView,
    plans: Seq<TextPlan>,
    boxes: Seq<LabelBox>,
    n: int,
) -> bool {
    boxes.len() == 2 * n && forall|i: int|
        #![trigger plans[i]]
        0 <= i < n ==> {
            let c = b.design.comps@[b.placed[i].comp as int];
            let t = plans[i];
            registers(
                boxes[2 * i],
                t.ref_box,
                text_tags(b, f, i, t.ref_box, t.last_resort),
                c,
            ) && registers(
                boxes[2 * i + 1],
                t.value_box,
                text_tags(b, f, i, t.value_box, t.last_resort),
                c,
            )
        }
}

pub open spec fn with_texts(p: PlacedComp, t: TextPlan) -> PlacedComp {
    PlacedComp {
        ref_at: t.ref_at,
        value_at: t.value_at,
        ref_justify_right: t.ref_right,
        value_justify_right: t.value_right,
        ..p
    }
}

/// Write every reference and value: the placed components learn where.
pub fn place_instance_texts(
    cfg: &SchConfig,
    design: &DesignModel,
    placed: &mut Box<[PlacedComp]>,
    nets: &[SheetNet],
    warnings: &mut Vec<Warning>,
) -> (r: TextArtifacts)
    requires
        (BoardView { cfg: *cfg, design: *design, placed: old(placed)@, nets: nets@ }).wf(),
    ensures
        ({
            let b = BoardView { cfg: *cfg, design: *design, placed: old(placed)@, nets: nets@ };
            let f = text_field(b);
            let (plans, said) = text_plans(b);
            &&& final(placed)@.len() == old(placed)@.len()
            &&& forall|i: int|
                0 <= i < final(placed)@.len() ==> #[trigger] final(placed)@[i] == with_texts(
                    old(placed)@[i],
                    plans[i],
                )
            &&& final(warnings)@ == old(warnings)@ + said
            &&& r.corridors@ == f.corridors
            &&& boxes_match(b, f, plans, r.label_boxes@, old(placed)@.len() as int)
        }),
{
    let ghost p0 = placed@;
    let mut plans: Vec<TextPlan> = Vec::new();
    let mut boxes: Vec<LabelBox> = Vec::new();
    let ghost w0 = warnings@;
    let f: TextField;
    {
        let b: Board = Board { cfg, design, placed: &*placed, nets };
        f = build_field(&b);
        let mut texts: Vec<BBox> = Vec::new();
        let mut n: usize = 0;
        proof {
            assert(w0 =~= w0 + plans_upto(b@, f@, 0).1);
        }
        while n < b.placed.len()
            invariant
                n <= b.placed.len(),
                b.wf(),
                b.placed@ == p0,
                b.cfg == cfg,
                b.design == design,
                b.nets == nets,
                f@ == text_field(b@),
                f@.raws.len() == b.placed@.len(),
                plans@.len() == n,
                plans@ == plans_upto(b@, f@, n as int).0,
                warnings@ == w0 + plans_upto(b@, f@, n as int).1,
                texts@ == plan_boxes(plans@, n as int),
                boxes_match(b@, f@, plans@, boxes@, n as int),
            decreases b.placed.len() - n,
        {
            let marks: Vec<PinMark> = crate::textplan::find_pin_marks(&b, n);
            let (t, shows): (TextPlan, bool) = f.plan_for(&b, &texts, &marks, n);
            let c: &Comp = &design.comps[b.placed[n].comp];
            if shows {
                warnings.push(Warning::TextOverlap { refdes: c.refdes.clone() });
            }
            let rt: Vec<String> = tags_for(&b, &f, &marks, n, &t.ref_box, t.last_resort);
            let vt: Vec<String> = tags_for(&b, &f, &marks, n, &t.value_box, t.last_resort);
            let ghost old_plans = plans@;
            let ghost old_boxes = boxes@;
            boxes.push(register_text(t.ref_box, rt, c));
            boxes.push(register_text(t.value_box, vt, c));
            texts.push(t.ref_box);
            texts.push(t.value_box);
            plans.push(t);
            proof {
                lemma_plan_boxes_prefix(old_plans, plans@, n as int);
                assert(warnings@ =~= w0 + plans_upto(b@, f@, n + 1).1);
                assert forall|i: int| #![trigger plans@[i]] 0 <= i < n + 1 implies ({
                    let c = b@.design.comps@[b@.placed[i].comp as int];
                    let t = plans@[i];
                    registers(
                        boxes@[2 * i],
                        t.ref_box,
                        text_tags(b@, f@, i, t.ref_box, t.last_resort),
                        c,
                    ) && registers(
                        boxes@[2 * i + 1],
                        t.value_box,
                        text_tags(b@, f@, i, t.value_box, t.last_resort),
                        c,
                    )
                }) by {
                    if i < n {
                        assert(plans@[i] == old_plans[i]);
                        assert(boxes@[2 * i] == old_boxes[2 * i]);
                        assert(boxes@[2 * i + 1] == old_boxes[2 * i + 1]);
                    }
                }
            }
            n = n + 1;
        }
    }
    let mut n: usize = 0;
    while n < placed.len()
        invariant
            n <= placed.len(),
            placed@.len() == p0.len(),
            plans@.len() == p0.len(),
            forall|i: int|
                0 <= i < n ==> #[trigger] placed@[i] == with_texts(p0[i], plans@[i]),
            forall|i: int| n <= i < placed@.len() ==> #[trigger] placed@[i] == p0[i],
        decreases placed.len() - n,
    {
        let p: PlacedComp = placed[n];
        let t: TextPlan = plans[n];
        placed[n] = PlacedComp {
            comp: p.comp,
            at: p.at,
            rotation: p.rotation,
            mirror: p.mirror,
            pinned: p.pinned,
            anchor: p.anchor,
            group_root: p.group_root,
            side: p.side,
            role: p.role,
            bbox: p.bbox,
            ref_at: t.ref_at,
            value_at: t.value_at,
            ref_justify_right: t.ref_right,
            value_justify_right: t.value_right,
            relegated: p.relegated,
        };
        n = n + 1;
    }
    TextArtifacts { label_boxes: boxes, corridors: f.corridors }
}

proof fn lemma_plan_boxes_prefix(a: Seq<TextPlan>, b: Seq<TextPlan>, n: int)
    requires
        0 <= n <= a.len(),
        n <= b.len(),
        forall|i: int| 0 <= i < n ==> a[i] == b[i],
    ensures
        plan_boxes(a, n) == plan_boxes(b, n),
    decreases n,
{
    if n > 0 {
        lemma_plan_boxes_prefix(a, b, n - 1);
    }
}

} // verus!
