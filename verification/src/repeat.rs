//! Repeated runs: the same design gives the same documents.

use vstd::prelude::*;
use crate::canvas::{blocks_view, RoutedSheet, Scene};
use crate::config::SchConfig;
use crate::extract::{comp_order, is_comp, lib_id_of, opt_text_chars};
use crate::generate::{
    generates, is_generated, sheet_drawn, GeneratedSchematic, SchOptions, Steps,
};
use crate::geometry::{is_symbol, pins_view, BBox, PinGeom, SymbolGeom};
use crate::model::{Comp, DesignModel, NetModel};
use crate::netlist::{
    is_design, is_driven, is_net, net_order, parts, role_at, wires, PartView,
};
use crate::pins::{pin_sites, pins_match, PinSite};
use crate::place::{is_placed, is_sheet_net, nets_on_sheet, SheetModel, SheetNet};
use crate::registry::{Corridor, LabelBox, RegPin};
use crate::route::{is_routed, routed_from, sheet_routed, shows, start_drawing};
use crate::schematic::{Instance, Net, Schematic};
use crate::sheets::{sheet_of, sheet_views, SheetDef, SheetPlan};
use crate::text::{lemma_list, lemma_text, Text};
use crate::textpass::{boxes_match, registers, text_field, text_plans, text_tags, with_texts};
use crate::textplan::{FieldView, TextPlan};
use crate::texts::BoardView;
use crate::warning::Warning;
use crate::wiring::paths;

verus! {

proof fn lemma_opt_text(a: Option<Text>, c: Option<Text>)
    requires
        opt_text_chars(a) == opt_text_chars(c),
    ensures
        a == c,
{
    match (a, c) {
        (Some(x), Some(y)) => {
            lemma_text(x, y);
        },
        _ => {},
    }
}

// ---------------------------------------------------------------- the design

proof fn lemma_pin(a: PinGeom, c: PinGeom)
    requires
        a@ == c@,
    ensures
        a == c,
{
    lemma_text(a.number, c.number);
    lemma_text(a.name, c.name);
    lemma_text(a.etype, c.etype);
}

proof fn lemma_symbol(a: SymbolGeom, c: SymbolGeom, block: crate::sexpr::SexprView)
    requires
        is_symbol(a, block),
        is_symbol(c, block),
    ensures
        a == c,
{
    lemma_text(a.lib_id, c.lib_id);
    assert(pins_view(a.pins@).len() == pins_view(c.pins@).len());
    assert forall|i: int| 0 <= i < a.pins@.len() implies a.pins@[i] == c.pins@[i] by {
        assert(pins_view(a.pins@)[i] == pins_view(c.pins@)[i]);
        lemma_pin(a.pins@[i], c.pins@[i]);
    }
    assert(a.pins@ =~= c.pins@);
    lemma_list(a.pins, c.pins);
}

proof fn lemma_comp(a: Comp, c: Comp, sch: Schematic, inst: Instance, id: Seq<char>)
    requires
        is_comp(a, sch, inst, id),
        is_comp(c, sch, inst, id),
    ensures
        a == (Comp { role: a.role, manual: a.manual, ..c }),
{
    lemma_list(a.path, c.path);
    lemma_text(a.path_key, c.path_key);
    lemma_text(a.value, c.value);
    lemma_opt_text(a.footprint, c.footprint);
    lemma_symbol(
        a.geom,
        c.geom,
        crate::geometry::renamed(crate::extract::block_of(sch, inst), Some(id)),
    );
}

proof fn lemma_nets(a: NetModel, c: NetModel, sch: Schematic, ps: Seq<PartView>, net: Net)
    requires
        is_net(a, sch, ps, net),
        is_net(c, sch, ps, net),
    ensures
        a == (NetModel { driven: a.driven, digital: a.digital, ..c }),
{
    lemma_list(a.endpoints, c.endpoints);
}

/// A design is built in one way only.
pub proof fn law_design_is_unique(a: DesignModel, c: DesignModel, sch: Schematic, limit: u64)
    requires
        is_design(a, sch, limit),
        is_design(c, sch, limit),
    ensures
        a == c,
{
    reveal(is_design);
    let order = comp_order(sch);
    assert forall|i: int| 0 <= i < a.comps@.len() implies a.comps@[i] == (Comp {
        role: a.comps@[i].role,
        manual: a.comps@[i].manual,
        ..(#[trigger] c.comps@[i])
    }) by {
        lemma_comp(
            a.comps@[i],
            c.comps@[i],
            sch,
            sch.instances@[order[i] as int],
            lib_id_of(sch, order, i),
        );
    }
    let ps = parts(a.comps@);
    assert(ps =~= parts(c.comps@)) by {
        assert forall|i: int| 0 <= i < ps.len() implies ps[i] == parts(c.comps@)[i] by {
            assert(a.comps@[i].geom == c.comps@[i].geom);
        }
    }
    assert forall|i: int| 0 <= i < a.nets@.len() implies a.nets@[i] == (NetModel {
        driven: a.nets@[i].driven,
        digital: a.nets@[i].digital,
        ..(#[trigger] c.nets@[i])
    }) by {
        lemma_nets(a.nets@[i], c.nets@[i], sch, ps, sch.nets@[net_order(sch)[i] as int]);
    }
    let ws = wires(a.nets@);
    assert(ws =~= wires(c.nets@)) by {
        assert forall|i: int| 0 <= i < ws.len() implies ws[i] == wires(c.nets@)[i] by {
            assert(a.nets@[i].endpoints == c.nets@[i].endpoints);
        }
    }
    assert forall|i: int| 0 <= i < a.comps@.len() implies a.comps@[i] == c.comps@[i] by {
        assert(a.comps@[i].role == role_at(sch, ps, ws, i, limit));
        assert(c.comps@[i].role == role_at(sch, ps, ws, i, limit));
    }
    assert(a.comps@ =~= c.comps@);
    lemma_list(a.comps, c.comps);
    assert forall|i: int| 0 <= i < a.nets@.len() implies a.nets@[i] == c.nets@[i] by {
        assert(a.nets@[i].driven == is_driven(ps, ws, i));
        assert(c.nets@[i].driven == is_driven(ps, ws, i));
    }
    assert(a.nets@ =~= c.nets@);
    lemma_list(a.nets, c.nets);
    lemma_list(a.warnings, c.warnings);
}

// ---------------------------------------------------------------- the sheets

proof fn lemma_sheet(a: SheetDef, c: SheetDef)
    requires
        a@ == c@,
    ensures
        a == c,
{
    lemma_list(a.instance_path, c.instance_path);
    lemma_text(a.title, c.title);
    lemma_text(a.file_name, c.file_name);
    lemma_text(a.page, c.page);
    lemma_list(a.comps, c.comps);
    lemma_list(a.ports, c.ports);
    lemma_list(a.children, c.children);
}

/// Plans with the same contents are the same.
proof fn lemma_plan(a: SheetPlan, c: SheetPlan)
    requires
        sheet_views(a.sheets@) == sheet_views(c.sheets@),
        a.comp_sheet@ == c.comp_sheet@,
    ensures
        a == c,
{
    assert(sheet_views(a.sheets@).len() == a.sheets@.len());
    assert(sheet_views(c.sheets@).len() == c.sheets@.len());
    assert forall|i: int| 0 <= i < a.sheets@.len() implies a.sheets@[i] == c.sheets@[i] by {
        assert(sheet_views(a.sheets@)[i] == a.sheets@[i]@);
        assert(sheet_views(c.sheets@)[i] == c.sheets@[i]@);
        lemma_sheet(a.sheets@[i], c.sheets@[i]);
    }
    assert(a.sheets@ =~= c.sheets@);
    lemma_list(a.sheets, c.sheets);
    lemma_list(a.comp_sheet, c.comp_sheet);
}

proof fn lemma_sheet_net(a: SheetNet, c: SheetNet, design: DesignModel, plan: SheetPlan, sheet: SheetDef, ni: int)
    requires
        is_sheet_net(a, design, plan, sheet, ni),
        is_sheet_net(c, design, plan, sheet, ni),
    ensures
        a == c,
{
    lemma_list(a.endpoints, c.endpoints);
}

/// A sheet is placed in one way only.
pub proof fn law_placement_is_unique(
    a: SheetModel,
    c: SheetModel,
    design: DesignModel,
    plan: SheetPlan,
    si: int,
    cfg: SchConfig,
)
    requires
        is_placed(a, design, plan, si, cfg),
        is_placed(c, design, plan, si, cfg),
    ensures
        a == c,
{
    let sheet = plan.sheets@[si];
    let kept = nets_on_sheet(design, plan, sheet, design.nets@.len() as int);
    assert forall|i: int| 0 <= i < a.nets@.len() implies a.nets@[i] == c.nets@[i] by {
        lemma_sheet_net(a.nets@[i], c.nets@[i], design, plan, sheet, kept[i]);
    }
    assert(a.nets@ =~= c.nets@);
    lemma_list(a.nets, c.nets);
    lemma_list(a.placed, c.placed);
}

// ---------------------------------------------------------------- routed sheets

proof fn lemma_pins(a: Seq<RegPin>, c: Seq<RegPin>, sites: Seq<PinSite>, nets: Seq<SheetNet>)
    requires
        pins_match(a, sites, nets),
        pins_match(c, sites, nets),
    ensures
        a == c,
{
    assert forall|i: int| 0 <= i < a.len() implies a[i] == c[i] by {
        lemma_text(a[i].net, c[i].net);
    }
    assert(a =~= c);
}

proof fn lemma_box(a: LabelBox, c: LabelBox, bbox: BBox, tags: Seq<String>, comp: Comp)
    requires
        registers(a, bbox, tags, comp),
        registers(c, bbox, tags, comp),
    ensures
        a == c,
{
    reveal(registers);
    assert(a.also@ =~= c.also@);
    lemma_list(a.also, c.also);
    lemma_text(a.net, c.net);
}

proof fn lemma_boxes(
    b: BoardView,
    f: FieldView,
    plans: Seq<TextPlan>,
    a: Seq<LabelBox>,
    c: Seq<LabelBox>,
    n: int,
)
    requires
        n >= 0,
        boxes_match(b, f, plans, a, n),
        boxes_match(b, f, plans, c, n),
    ensures
        a == c,
{
    assert forall|k: int| 0 <= k < a.len() implies a[k] == c[k] by {
        let i = k / 2;
        let t = plans[i];
        let comp = b.design.comps@[b.placed[i].comp as int];
        if k == 2 * i {
            lemma_box(
                a[k],
                c[k],
                t.ref_box,
                text_tags(b, f, i, t.ref_box, t.last_resort),
                comp,
            );
        } else {
            assert(k == 2 * i + 1);
            lemma_box(
                a[k],
                c[k],
                t.value_box,
                text_tags(b, f, i, t.value_box, t.last_resort),
                comp,
            );
        }
    }
    assert(a =~= c);
}

/// Two routed sheets hold the same.
pub open spec fn same_drawing(a: RoutedSheet, c: RoutedSheet) -> bool {
    &&& paths(a.wires@) == paths(c.wires@)
    &&& a.junctions@ == c.junctions@
    &&& a.net_labels@ == c.net_labels@
    &&& a.global_labels@ == c.global_labels@
    &&& a.hier_labels@ == c.hier_labels@
    &&& a.power_symbols@ == c.power_symbols@
    &&& a.pwr_flags@ == c.pwr_flags@
    &&& a.no_connects@ == c.no_connects@
    &&& blocks_view(a.blocks@) == blocks_view(c.blocks@)
    &&& a.zones@ == c.zones@
    &&& a.extents == c.extents
}

/// A sheet is routed in one way only.
pub proof fn law_routing_is_unique(
    m0: SheetModel,
    m1: SheetModel,
    m2: SheetModel,
    design: DesignModel,
    plan: SheetPlan,
    cfg: SchConfig,
    undriven: Seq<String>,
    a: RoutedSheet,
    c: RoutedSheet,
    said: Seq<Warning>,
    told: Seq<Warning>,
)
    requires
        is_routed(m0, m1, design, plan, cfg, undriven, a, said),
        is_routed(m0, m2, design, plan, cfg, undriven, c, told),
    ensures
        m1 == m2,
        same_drawing(a, c),
        said == told,
{
    reveal(is_routed);
    let b = BoardView { cfg, design, placed: m0.placed@, nets: m0.nets@ };
    let plans = text_plans(b).0;
    assert forall|i: int| 0 <= i < m1.placed@.len() implies m1.placed@[i] == m2.placed@[i] by {
        assert(m2.placed@[i] == with_texts(m0.placed@[i], plans[i]));
    }
    assert(m1.placed@ =~= m2.placed@);
    lemma_list(m1.placed, m2.placed);
    let n = m0.placed@.len() as int;
    let (p1, t1, c1, d1) = choose|
        pins: Seq<RegPin>,
        texts: Seq<LabelBox>,
        corridors: Box<[Corridor]>,
        drawn: Seq<Warning>,
    |
        corridors@ == text_field(b).corridors && boxes_match(b, text_field(b), plans, texts, n)
            && #[trigger] routed_from(
            Scene { cfg: &cfg, design: &design, model: &m1, plan: &plan, corridors: &corridors },
            pins,
            texts,
            undriven,
            a,
            drawn,
        ) && said == text_plans(b).1 + drawn;
    let (p2, t2, c2, d2) = choose|
        pins: Seq<RegPin>,
        texts: Seq<LabelBox>,
        corridors: Box<[Corridor]>,
        drawn: Seq<Warning>,
    |
        corridors@ == text_field(b).corridors && boxes_match(b, text_field(b), plans, texts, n)
            && #[trigger] routed_from(
            Scene { cfg: &cfg, design: &design, model: &m2, plan: &plan, corridors: &corridors },
            pins,
            texts,
            undriven,
            c,
            drawn,
        ) && told == text_plans(b).1 + drawn;
    lemma_list(c1, c2);
    lemma_boxes(b, text_field(b), plans, t1, t2, n);
    let sc = Scene { cfg: &cfg, design: &design, model: &m1, plan: &plan, corridors: &c1 };
    let sites = pin_sites(design, m1.placed@, m1.nets@, m1.placed@.len() as int);
    lemma_pins(p1, p2, sites, m1.nets@);
    let d = sheet_routed(sc, start_drawing(p1, t1), undriven);
    assert(shows(a, d));
    assert(shows(c, d));
}

// ---------------------------------------------------------------- all documents

/// Two runs take the same steps.
pub open spec fn same_steps(x: Steps, y: Steps) -> bool {
    &&& x.design == y.design
    &&& x.symbols == y.symbols
    &&& x.plan == y.plan
    &&& x.placed == y.placed
    &&& x.finished == y.finished
    &&& x.routed.len() == y.routed.len()
    &&& forall|si: int|
        0 <= si < x.routed.len() ==> same_drawing(#[trigger] x.routed[si], y.routed[si])
    &&& x.said == y.said
}

proof fn lemma_sheet_steps(x: Steps, y: Steps, cfg: SchConfig, si: int)
    requires
        x.design == y.design,
        x.plan == y.plan,
        x.sheet_done(cfg, si),
        y.sheet_done(cfg, si),
    ensures
        x.placed[si] == y.placed[si],
        x.finished[si] == y.finished[si],
        same_drawing(x.routed[si], y.routed[si]),
        x.said[si] == y.said[si],
{
    law_placement_is_unique(x.placed[si], y.placed[si], x.design, x.plan, si, cfg);
    law_routing_is_unique(
        x.placed[si],
        x.finished[si],
        y.finished[si],
        x.design,
        x.plan,
        cfg,
        x.flags(si),
        x.routed[si],
        y.routed[si],
        x.said[si],
        y.said[si],
    );
}

/// A design is generated in the same steps each time.
pub proof fn law_steps_are_unique(x: Steps, y: Steps, sch: Schematic, opts: SchOptions)
    requires
        x.are_steps(sch, opts),
        y.are_steps(sch, opts),
    ensures
        same_steps(x, y),
{
    law_design_is_unique(x.design, y.design, sch, opts.config.bulk_capacitance_pf);
    assert(sheet_views(x.plan.sheets@).len() == x.plan.sheets@.len());
    assert(sheet_views(y.plan.sheets@).len() == y.plan.sheets@.len());
    assert(x.plan.comp_sheet@ =~= y.plan.comp_sheet@) by {
        assert forall|ci: int| 0 <= ci < x.plan.comp_sheet@.len() implies x.plan.comp_sheet@[ci]
            == y.plan.comp_sheet@[ci] by {
            assert(y.plan.comp_sheet@[ci] == sheet_of(
                sheet_views(y.plan.sheets@),
                ci,
                y.plan.sheets@.len() as int,
            ));
        }
    }
    lemma_plan(x.plan, y.plan);
    let n = x.plan.sheets@.len() as int;
    assert forall|si: int| 0 <= si < n implies x.placed[si] == y.placed[si] && x.finished[si]
        == y.finished[si] && same_drawing(#[trigger] x.routed[si], y.routed[si]) && x.said[si]
        == y.said[si] by {
        assert(x.sheet_done(opts.config, si));
        assert(y.sheet_done(opts.config, si));
        lemma_sheet_steps(x, y, opts.config, si);
    }
    assert forall|si: int| 0 <= si < n implies x.placed[si] == y.placed[si] && x.finished[si]
        == y.finished[si] && x.said[si] == y.said[si] by {
        assert(same_drawing(x.routed[si], y.routed[si]));
    }
    assert(x.placed =~= y.placed);
    assert(x.finished =~= y.finished);
    assert(x.said =~= y.said);
}

proof fn lemma_drawn(x: Steps, y: Steps, opts: SchOptions, si: int, prefix: Option<Seq<char>>)
    requires
        same_steps(x, y),
        0 <= si < x.routed.len(),
    ensures
        x.drawn(opts, si, prefix) == y.drawn(opts, si, prefix),
        x.blocks(si) == y.blocks(si),
{
    reveal(sheet_drawn);
    assert(same_drawing(x.routed[si], y.routed[si]));
}

proof fn lemma_paths(x: Steps, y: Steps, opts: SchOptions, n: int)
    requires
        same_steps(x, y),
        n <= x.routed.len(),
    ensures
        x.paths_upto(opts, n) == y.paths_upto(opts, n),
    decreases n,
{
    if n > 0 {
        lemma_paths(x, y, opts, n - 1);
        lemma_drawn(x, y, opts, n - 1, x.paths_upto(opts, n - 1)[n - 1]);
    }
}

proof fn lemma_said(x: Steps, y: Steps, cfg: SchConfig, n: int)
    requires
        same_steps(x, y),
    ensures
        x.sheets_said(cfg, n) == y.sheets_said(cfg, n),
    decreases n,
{
    if n > 0 {
        lemma_said(x, y, cfg, n - 1);
    }
}

/// Repeated runs on the same design with the same options give the same documents and the same
/// remarks.
pub proof fn law_repeated_runs_agree(
    a: GeneratedSchematic,
    c: GeneratedSchematic,
    sch: Schematic,
    opts: SchOptions,
)
    requires
        generates(a, sch, opts),
        generates(c, sch, opts),
    ensures
        a.root_file_name@ == c.root_file_name@,
        a.warnings@ == c.warnings@,
        a.files@.len() == c.files@.len(),
        forall|i: int|
            0 <= i < a.files@.len() ==> (#[trigger] a.files@[i]).file_name@
                == c.files@[i].file_name@ && a.files@[i].content@ == c.files@[i].content@,
{
    reveal(generates);
    reveal(is_generated);
    let x = choose|st: Steps| #[trigger] is_generated(a, sch, opts, st);
    let y = choose|st: Steps| #[trigger] is_generated(c, sch, opts, st);
    law_steps_are_unique(x, y, sch, opts);
    let n = x.plan.sheets@.len() as int;
    lemma_said(x, y, opts.config, n);
    assert forall|i: int| 0 <= i < a.files@.len() implies (#[trigger] a.files@[i]).file_name@
        == c.files@[i].file_name@ && a.files@[i].content@ == c.files@[i].content@ by {
        lemma_paths(x, y, opts, i);
        lemma_drawn(x, y, opts, i, x.paths_upto(opts, i)[i]);
        assert(c.files@[i].content@ == y.document(opts, i));
    }
}

} // verus!
