//! Routing of one placed sheet: texts, trees, labels, power, blocks, ports and outlines.

use vstd::prelude::*;
use crate::align::siblings_aligned;
use crate::blocks::{all_blocks_drawn, fallback_ports};
use crate::canvas::{blocks_view, Canvas, Drawing, RoutedSheet, Scene};
use crate::config::SchConfig;
use crate::geometry::{empty_box, BBox};
use crate::labels::signals_routed;
use crate::model::DesignModel;
use crate::outline::{extents_of, zone_plan};
use crate::pins::{free_sites, pin_sites, pins_match, survey_pins};
use crate::place::{PlacedComp, SheetModel};
use crate::registry::{Corridor, LabelBox, Reg, RegPin, RegView};
use crate::sheets::SheetPlan;
use crate::supply::nets_supplied;
use crate::text::boxed;
use crate::textpass::{
    boxes_match, place_instance_texts, text_field, text_plans, with_texts, TextArtifacts,
};
use crate::texts::BoardView;
use crate::units::Point;
use crate::warning::Warning;
use crate::wiring::paths;
use crate::zones::flags_relegated;

verus! {

/// The sheet before anything is wired: its pins and its texts.
pub open spec fn start_drawing(pins: Seq<RegPin>, texts: Seq<LabelBox>) -> Drawing {
    Drawing {
        reg: RegView {
            segs: Seq::empty(),
            pins,
            power_boxes: Seq::empty(),
            label_boxes: Seq::empty(),
            text_boxes: texts,
        },
        wires: Seq::empty(),
        junctions: Seq::empty(),
        net_labels: Seq::empty(),
        global_labels: Seq::empty(),
        hier_labels: Seq::empty(),
        power_symbols: Seq::empty(),
        pwr_flags: Seq::empty(),
        no_connects: Seq::empty(),
        blocks: Seq::empty(),
        zones: Seq::empty(),
        extents: empty_box(),
        anchored: Seq::empty(),
        warnings: Seq::empty(),
    }
}

/// Power and ground pins, with the flags of undriven rails; the box of the flags in the band.
pub open spec fn power_routed(sc: Scene<'_>, d: Drawing, undriven: Seq<String>) -> (
    Drawing,
    Option<BBox>,
) {
    let p = nets_supplied(sc, d, undriven, sc.model.nets@.len() as int);
    if sc.model.relegate {
        flags_relegated(sc, p.0, p.1)
    } else {
        (p.0, None)
    }
}

/// The pins of the sheet without a net.
pub open spec fn unconnected(sc: Scene<'_>) -> Seq<Point> {
    let sites = pin_sites(
        *sc.design,
        sc.model.placed@,
        sc.model.nets@,
        sc.model.placed@.len() as int,
    );
    free_sites(sites, sites.len() as int)
}

/// The sheet once it is routed.
pub open spec fn sheet_routed(sc: Scene<'_>, d: Drawing, undriven: Seq<String>) -> Drawing {
    let d1 = signals_routed(sc, d);
    let (d2, flags) = power_routed(sc, d1, undriven);
    let d3 = Drawing { no_connects: unconnected(sc), ..d2 };
    let d4 = siblings_aligned(sc, fallback_ports(sc, all_blocks_drawn(sc, d3)));
    let d5 = Drawing { zones: d4.zones + zone_plan(sc, d4, flags), ..d4 };
    Drawing { extents: extents_of(sc.model.content_box, d5), ..d5 }
}

/// The routed sheet holds what the drawing holds.
pub open spec fn shows(out: RoutedSheet, d: Drawing) -> bool {
    &&& paths(out.wires@) == d.wires
    &&& out.junctions@ == d.junctions
    &&& out.net_labels@ == d.net_labels
    &&& out.global_labels@ == d.global_labels
    &&& out.hier_labels@ == d.hier_labels
    &&& out.power_symbols@ == d.power_symbols
    &&& out.pwr_flags@ == d.pwr_flags
    &&& out.no_connects@ == d.no_connects
    &&& blocks_view(out.blocks@) == d.blocks
    &&& out.zones@ == d.zones
    &&& out.extents == d.extents
}

impl Canvas {
    /// Give every power and ground pin its symbol, and every undriven rail its flag.
    pub fn route_power(&mut self, sc: &Scene, undriven: &Vec<String>) -> (flags: Option<BBox>)
        requires
            sc.wf(),
        ensures
            (final(self)@, flags) == power_routed(*sc, old(self)@, undriven@),
    {
        let noted: Vec<String> = self.supply_nets(sc, undriven);
        if sc.model.relegate {
            self.relegate_flags(sc, &noted)
        } else {
            None
        }
    }

    fn route_all(&mut self, sc: &Scene, undriven: &Vec<String>, free: Vec<Point>)
        requires
            sc.wf(),
            free@ == unconnected(*sc),
        ensures
            final(self)@ == sheet_routed(*sc, old(self)@, undriven@),
    {
        self.route_signals(sc);
        let flags: Option<BBox> = self.route_power(sc, undriven);
        self.out.no_connects = free;
        self.place_blocks(sc);
        self.place_port_fallbacks(sc);
        self.align_sibling_ports(sc);
        self.compute_zones(sc, flags);
        self.compute_extents(sc.model.content_box);
    }
}

/// The components and nets of a sheet can be routed.
pub open spec fn routable(
    design: DesignModel,
    plan: SheetPlan,
    model: SheetModel,
    cfg: SchConfig,
) -> bool {
    cfg.wf() && model.wf(design) && model.sheet < plan.sheets@.len() && plan.links_wf(design)
}

/// `out` and `said` are the routed sheet `sc` and what there is to say about it, given the
/// registered pins and texts.
pub open spec fn routed_from(
    sc: Scene<'_>,
    pins: Seq<RegPin>,
    texts: Seq<LabelBox>,
    undriven: Seq<String>,
    out: RoutedSheet,
    said: Seq<Warning>,
) -> bool {
    let d = sheet_routed(sc, start_drawing(pins, texts), undriven);
    let sites = pin_sites(
        *sc.design,
        sc.model.placed@,
        sc.model.nets@,
        sc.model.placed@.len() as int,
    );
    pins_match(pins, sites, sc.model.nets@) && shows(out, d) && said == d.warnings
}

/// `m1` is the placed sheet `m0` with the places of its texts, `out` is what is drawn on it, and
/// `said` is what there is to say about it.
#[verifier::opaque]
pub open spec fn is_routed(
    m0: SheetModel,
    m1: SheetModel,
    design: DesignModel,
    plan: SheetPlan,
    cfg: SchConfig,
    undriven: Seq<String>,
    out: RoutedSheet,
    said: Seq<Warning>,
) -> bool {
    let b = BoardView { cfg, design, placed: m0.placed@, nets: m0.nets@ };
    let (plans, texts_said) = text_plans(b);
    &&& m1 == (SheetModel { placed: m1.placed, ..m0 })
    &&& m1.placed@.len() == m0.placed@.len()
    &&& forall|i: int|
        0 <= i < m1.placed@.len() ==> #[trigger] m1.placed@[i] == with_texts(
            m0.placed@[i],
            plans[i],
        )
    &&& exists|pins: Seq<RegPin>, texts: Seq<LabelBox>, corridors: Box<[Corridor]>, drawn: Seq<
        Warning,
    >|
        #![trigger routed_from(
            Scene {
                cfg: &cfg,
                design: &design,
                model: &m1,
                plan: &plan,
                corridors: &corridors,
            },
            pins,
            texts,
            undriven,
            out,
            drawn,
        )]
        corridors@ == text_field(b).corridors && boxes_match(
            b,
            text_field(b),
            plans,
            texts,
            m0.placed@.len() as int,
        ) && routed_from(
            Scene {
                cfg: &cfg,
                design: &design,
                model: &m1,
                plan: &plan,
                corridors: &corridors,
            },
            pins,
            texts,
            undriven,
            out,
            drawn,
        ) && said == texts_said + drawn
}

proof fn lemma_is_routed(
    sc: Scene<'_>,
    m0: SheetModel,
    pins: Seq<RegPin>,
    texts: Seq<LabelBox>,
    undriven: Seq<String>,
    out: RoutedSheet,
    drawn: Seq<Warning>,
)
    requires
        ({
            let b = BoardView {
                cfg: *sc.cfg,
                design: *sc.design,
                placed: m0.placed@,
                nets: m0.nets@,
            };
            let m1 = *sc.model;
            let plans = text_plans(b).0;
            &&& m1 == (SheetModel { placed: m1.placed, ..m0 })
            &&& m1.placed@.len() == m0.placed@.len()
            &&& forall|i: int|
                0 <= i < m1.placed@.len() ==> #[trigger] m1.placed@[i] == with_texts(
                    m0.placed@[i],
                    plans[i],
                )
            &&& sc.corridors@ == text_field(b).corridors
            &&& boxes_match(b, text_field(b), plans, texts, m0.placed@.len() as int)
            &&& routed_from(sc, pins, texts, undriven, out, drawn)
        }),
    ensures
        ({
            let b = BoardView {
                cfg: *sc.cfg,
                design: *sc.design,
                placed: m0.placed@,
                nets: m0.nets@,
            };
            is_routed(
                m0,
                *sc.model,
                *sc.design,
                *sc.plan,
                *sc.cfg,
                undriven,
                out,
                text_plans(b).1 + drawn,
            )
        }),
{
    reveal(is_routed);
}

/// Route one placed sheet. The undriven rails among `undriven` get their flag on this sheet.
/// The components learn where their texts are written.
pub fn route_sheet(
    design: &DesignModel,
    plan: &SheetPlan,
    model: &mut SheetModel,
    cfg: &SchConfig,
    undriven: &Vec<String>,
    warnings: &mut Vec<Warning>,
) -> (out: RoutedSheet)
    requires
        routable(*design, *plan, *old(model), *cfg),
    ensures
        exists|said: Seq<Warning>| #[trigger]
            is_routed(
                *old(model),
                *final(model),
                *design,
                *plan,
                *cfg,
                undriven@,
                out,
                said,
            ) && final(warnings)@ == old(warnings)@ + said,
        final(model).wf(*design),
{
    let ghost m0 = *model;
    let ghost b = BoardView { cfg: *cfg, design: *design, placed: m0.placed@, nets: m0.nets@ };
    let ghost w0 = warnings@;
    let mut placed: Box<[PlacedComp]> = boxed(Vec::new());
    std::mem::swap(&mut placed, &mut model.placed);
    let art: TextArtifacts = place_instance_texts(cfg, design, &mut placed, &model.nets, warnings);
    std::mem::swap(&mut placed, &mut model.placed);
    let ghost texts = art.label_boxes@;
    let ghost w1 = warnings@;
    let corridors: Box<[Corridor]> = boxed(art.corridors);
    let sc: Scene = Scene { cfg, design, model: &*model, plan, corridors: &corridors };
    proof {
        assert forall|i: int| 0 <= i < sc.model.placed@.len() implies (
        #[trigger] sc.model.placed@[i]).comp < design.comps@.len() && sc.model.placed@[i].group_root
            < sc.model.placed@.len() by {
            assert(m0.placed@[i].comp < design.comps@.len());
            assert(m0.placed@[i].group_root < m0.placed@.len());
        }
        assert(sc.model.wf(*design));
    }
    let (pins, free): (Vec<RegPin>, Vec<Point>) = survey_pins(&sc);
    let ghost pv = pins@;
    let mut reg: Reg = Reg::new(art.label_boxes);
    reg.pins = pins;
    let mut canvas: Canvas = Canvas::new(reg);
    proof {
        assert(canvas@ == start_drawing(pv, texts));
    }
    canvas.route_all(&sc, undriven, free);
    let mut said: Vec<Warning> = canvas.warnings;
    let ghost sv = said@;
    warnings.append(&mut said);
    proof {
        let all = text_plans(b).1 + sv;
        assert(warnings@ =~= w0 + all);
        assert(routed_from(sc, pv, texts, undriven@, canvas.out, sv));
        lemma_is_routed(sc, m0, pv, texts, undriven@, canvas.out, sv);
        assert(is_routed(m0, *model, *design, *plan, *cfg, undriven@, canvas.out, all));
    }
    canvas.out
}

} // verus!
