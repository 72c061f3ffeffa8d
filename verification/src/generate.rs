//! The generator: an evaluated design in, the documents of all its sheets out.

use vstd::prelude::*;
use crate::anchors::below;
use crate::canvas::{
    blocks_view, BlockModel, BlockView, GlobalLabel, HierLabel, NetLabel, PowerSymbol, PwrFlag,
    RoutedSheet, Zone, ZoneKind,
};
use crate::config::{usual_config, Paper, SchConfig};
use crate::document::{
    fresh_document, law_two_digits_injective, lib_at, pin_numbers, plain_place, two_digits, with_lib,
    LibView, OptionsView, PlaceSymbol, PlaceView, SheetPinView, SheetRef, SheetRefPin, SheetRefView,
    SheetWriter, SheetWriterOptions, WriterView,
};
use crate::extract::{
    blocks_of, comp_order, first_unsound, is_fault, list_blocks, opt_chars, opt_text_chars,
    BuildError,
};
use crate::geometry::BBox;
use crate::model::{Comp, DesignModel, NetClass, NetModel};
use crate::netlist::is_design;
use crate::place::{is_placed, place_sheet, placing_said, PlacedComp, SheetModel};
use crate::route::{is_routed, route_sheet};
use crate::schematic::Schematic;
use crate::sexpr::{trees, Sexpr, SexprView};
use crate::sheets::{dense_said, plan_sheets, planned, sheet_of, sheet_views, SheetDef, SheetPlan};
use crate::symbols::opt_text;
use crate::text::{append_chars, chars_of, text_of};
use crate::units::{sat, to_iu, Iu, Point};
use crate::uuid::texts;
use crate::warning::Warning;
use crate::wiring::paths;

verus! {

/// Version that is written into every document.
pub const GENERATOR_VERSION: &'static str = "0.1.0";

/// What a generation starts from.
#[derive(Debug)]
pub struct SchOptions {
    /// Name of the project; the root document is named after it.
    pub project_name: String,
    pub generator: String,
    pub generator_version: String,
    pub config: SchConfig,
}

impl SchOptions {
    /// The usual options for a project.
    pub fn new(project_name: &str) -> (r: SchOptions)
        ensures
            r.project_name@ == project_name@,
            r.generator@ == "pcb"@,
            r.generator_version@ == GENERATOR_VERSION@,
            r.config == usual_config(),
            r.config.wf(),
    {
        SchOptions {
            project_name: project_name.to_owned(),
            generator: "pcb".to_owned(),
            generator_version: GENERATOR_VERSION.to_owned(),
            config: SchConfig::default(),
        }
    }
}

/// A generated document.
#[derive(Debug)]
pub struct SchFile {
    pub file_name: String,
    pub content: Sexpr,
}

/// All generated documents.
#[derive(Debug)]
pub struct GeneratedSchematic {
    /// One document for each sheet, the root first.
    pub files: Vec<SchFile>,
    pub root_file_name: String,
    pub warnings: Vec<Warning>,
}

// ---------------------------------------------------------------- paper

/// The drawing fits the page with its frame.
pub open spec fn fits_paper(p: Paper, extents: BBox) -> bool {
    extents.x2 <= p.spec_size().0 - 127000 && extents.y2 <= p.spec_size().1 - 190500
}

/// The page of a drawing: the chosen one, or the smallest that the drawing fits.
pub open spec fn paper_for(cfg: SchConfig, extents: BBox) -> Paper {
    if cfg.paper != Paper::Auto {
        cfg.paper
    } else if fits_paper(Paper::A4, extents) {
        Paper::A4
    } else if fits_paper(Paper::A3, extents) {
        Paper::A3
    } else {
        Paper::A2
    }
}

fn does_fit(p: Paper, extents: &BBox) -> (r: bool)
    ensures
        r == fits_paper(p, *extents),
{
    let (w, h): (Iu, Iu) = p.size();
    extents.x2 as i64 <= w as i64 - 127000 && extents.y2 as i64 <= h as i64 - 190500
}

/// The page of a drawing: the chosen one, or the smallest that the drawing fits.
pub fn pick_paper(cfg: &SchConfig, extents: &BBox) -> (r: Paper)
    ensures
        r == paper_for(*cfg, *extents),
{
    match cfg.paper {
        Paper::Auto => {
            if does_fit(Paper::A4, extents) {
                Paper::A4
            } else if does_fit(Paper::A3, extents) {
                Paper::A3
            } else {
                Paper::A2
            }
        },
        fixed => fixed,
    }
}

/// Where no page is chosen, no smaller page than the picked one would do, and the picked one does
/// unless it is the largest.
pub proof fn law_paper_is_smallest_fit(cfg: SchConfig, extents: BBox, p: Paper)
    requires
        cfg.paper == Paper::Auto,
        p != Paper::Auto,
    ensures
        fits_paper(p, extents) ==> paper_for(cfg, extents).spec_size().0 <= p.spec_size().0,
        fits_paper(paper_for(cfg, extents), extents) || paper_for(cfg, extents) == Paper::A2,
{
}

// ---------------------------------------------------------------- flags

/// The first sheet that the first `n` endpoints of a net are on.
pub open spec fn first_sheet(net: NetModel, comp_sheet: Seq<usize>, n: int) -> Option<usize>
    decreases n,
{
    if n <= 0 || n > net.endpoints@.len() {
        None
    } else {
        let s = comp_sheet[net.endpoints@[n - 1].comp as int];
        match first_sheet(net, comp_sheet, n - 1) {
            Some(t) => if t <= s {
                Some(t)
            } else {
                Some(s)
            },
            None => Some(s),
        }
    }
}

/// The sheet that flags the net: the first one of a rail that nothing drives.
pub open spec fn flag_sheet(net: NetModel, comp_sheet: Seq<usize>) -> Option<usize> {
    if net.class == NetClass::Signal || net.driven {
        None
    } else {
        first_sheet(net, comp_sheet, net.endpoints@.len() as int)
    }
}

/// The rails among the first `n` nets that a sheet flags.
pub open spec fn flags_on(design: DesignModel, comp_sheet: Seq<usize>, si: int, n: int) -> Seq<String>
    decreases n,
{
    if n <= 0 || n > design.nets@.len() {
        Seq::empty()
    } else {
        let before = flags_on(design, comp_sheet, si, n - 1);
        match flag_sheet(design.nets@[n - 1], comp_sheet) {
            Some(s) => if s == si {
                before.push(design.nets@[n - 1].name)
            } else {
                before
            },
            None => before,
        }
    }
}

fn find_flag_sheet(net: &NetModel, comp_sheet: &[usize]) -> (r: Option<usize>)
    requires
        forall|e: int|
            0 <= e < net.endpoints@.len() ==> (#[trigger] net.endpoints@[e]).comp
                < comp_sheet@.len(),
    ensures
        r == flag_sheet(*net, comp_sheet@),
{
    if net.class == NetClass::Signal || net.driven {
        return None;
    }
    let mut best: Option<usize> = None;
    let mut n: usize = 0;
    while n < net.endpoints.len()
        invariant
            n <= net.endpoints.len(),
            forall|e: int|
                0 <= e < net.endpoints@.len() ==> (#[trigger] net.endpoints@[e]).comp
                    < comp_sheet@.len(),
            best == first_sheet(*net, comp_sheet@, n as int),
        decreases net.endpoints.len() - n,
    {
        let s: usize = comp_sheet[net.endpoints[n].comp];
        best = match best {
            Some(t) => if t <= s {
                Some(t)
            } else {
                Some(s)
            },
            None => Some(s),
        };
        n = n + 1;
    }
    best
}

fn list_flags(design: &DesignModel, comp_sheet: &[usize], si: usize) -> (r: Vec<String>)
    requires
        design.wf(),
        comp_sheet@.len() == design.comps@.len(),
    ensures
        r@ == flags_on(*design, comp_sheet@, si as int, design.nets@.len() as int),
{
    let mut out: Vec<String> = Vec::new();
    let mut n: usize = 0;
    while n < design.nets.len()
        invariant
            n <= design.nets.len(),
            design.wf(),
            comp_sheet@.len() == design.comps@.len(),
            out@ == flags_on(*design, comp_sheet@, si as int, n as int),
        decreases design.nets.len() - n,
    {
        proof {
            assert forall|e: int| 0 <= e < design.nets@[n as int].endpoints@.len() implies (
            #[trigger] design.nets@[n as int].endpoints@[e]).comp < comp_sheet@.len() by {}
        }
        match find_flag_sheet(&design.nets[n], comp_sheet) {
            Some(s) => {
                if s == si {
                    out.push(design.nets[n].name.clone());
                }
            },
            None => {},
        }
        n = n + 1;
    }
    out
}

proof fn lemma_flags_on(design: DesignModel, comp_sheet: Seq<usize>, si: int, n: int, ni: int)
    requires
        0 <= ni < n <= design.nets@.len(),
        flag_sheet(design.nets@[ni], comp_sheet) == Some(si as usize),
        0 <= si <= usize::MAX,
    ensures
        flags_on(design, comp_sheet, si, n).contains(design.nets@[ni].name),
    decreases n,
{
    let now = flags_on(design, comp_sheet, si, n);
    if ni == n - 1 {
        assert(now[now.len() - 1] == design.nets@[ni].name);
    } else {
        lemma_flags_on(design, comp_sheet, si, n - 1, ni);
        let before = flags_on(design, comp_sheet, si, n - 1);
        let k = choose|k: int| 0 <= k < before.len() && before[k] == design.nets@[ni].name;
        assert(now[k] == before[k]);
    }
}

proof fn lemma_flags_only(design: DesignModel, comp_sheet: Seq<usize>, si: int, n: int, name: String)
    requires
        0 <= n <= design.nets@.len(),
        0 <= si <= usize::MAX,
        flags_on(design, comp_sheet, si, n).contains(name),
    ensures
        exists|ni: int|
            0 <= ni < n && (#[trigger] design.nets@[ni]).name == name && flag_sheet(
                design.nets@[ni],
                comp_sheet,
            ) == Some(si as usize),
    decreases n,
{
    let now = flags_on(design, comp_sheet, si, n);
    let k = choose|k: int| 0 <= k < now.len() && now[k] == name;
    if n > 0 {
        let before = flags_on(design, comp_sheet, si, n - 1);
        if k < before.len() {
            assert(before[k] == now[k]);
            assert(before.contains(name));
            lemma_flags_only(design, comp_sheet, si, n - 1, name);
        } else {
            assert(design.nets@[n - 1].name == name);
        }
    }
}

/// Every rail that has endpoints and that nothing drives is flagged on one sheet, and on no other
/// sheet unless another net has the same name.
pub proof fn law_one_flag_for_each_rail(design: DesignModel, comp_sheet: Seq<usize>, ni: int, si: int)
    requires
        0 <= ni < design.nets@.len(),
        0 <= si <= usize::MAX,
        design.nets@[ni].class != NetClass::Signal,
        !design.nets@[ni].driven,
        design.nets@[ni].endpoints@.len() > 0,
        forall|o: int|
            0 <= o < design.nets@.len() && o != ni ==> (#[trigger] design.nets@[o]).name
                != design.nets@[ni].name,
    ensures
        flags_on(design, comp_sheet, si, design.nets@.len() as int).contains(
            design.nets@[ni].name,
        ) <==> flag_sheet(design.nets@[ni], comp_sheet) == Some(si as usize),
        flag_sheet(design.nets@[ni], comp_sheet) is Some,
{
    let n = design.nets@.len() as int;
    if flag_sheet(design.nets@[ni], comp_sheet) == Some(si as usize) {
        lemma_flags_on(design, comp_sheet, si, n, ni);
    }
    if flags_on(design, comp_sheet, si, n).contains(design.nets@[ni].name) {
        lemma_flags_only(design, comp_sheet, si, n, design.nets@[ni].name);
    }
}

// ---------------------------------------------------------------- one document

pub open spec fn zone_title(kind: ZoneKind) -> Seq<char> {
    match kind {
        ZoneKind::Functional => "Functional"@,
        ZoneKind::Decoupling => "Decoupling"@,
        ZoneKind::Erc => "ERC"@,
    }
}

fn title_of_zone(kind: ZoneKind) -> (r: &'static str)
    ensures
        r@ == zone_title(kind),
{
    match kind {
        ZoneKind::Functional => "Functional",
        ZoneKind::Decoupling => "Decoupling",
        ZoneKind::Erc => "ERC",
    }
}

/// How a placed component is drawn: its reference stands on its place, its value hangs below it.
pub open spec fn place_of(c: Comp, p: PlacedComp) -> PlaceView {
    PlaceView {
        rotation: p.rotation,
        mirror: p.mirror,
        dnp: c.dnp,
        footprint: opt_text_chars(c.footprint),
        datasheet: opt_chars(c.datasheet),
        description: opt_chars(c.description),
        mpn: opt_chars(c.mpn),
        uuid_key: c.path_key@,
        ref_at: Some(p.ref_at),
        value_at: Some(p.value_at),
        ref_justify: if p.ref_justify_right {
            seq!["right"@, "bottom"@]
        } else {
            seq!["left"@, "bottom"@]
        },
        value_justify: if p.value_justify_right {
            seq!["right"@, "top"@]
        } else {
            seq!["left"@, "top"@]
        },
        ..plain_place(c.geom.lib_id@, c.refdes@, c.value@, p.at)
    }
}

/// The block of a child sheet.
pub open spec fn block_of(child: SheetDef, b: BlockView) -> SheetRefView {
    SheetRefView {
        file_name: child.file_name@,
        title: child.title@,
        at: b.at,
        size: b.size,
        pins: Seq::new(
            b.pins.len(),
            |i: int|
                SheetPinView {
                    name: b.pins[i].net@,
                    direction: b.pins[i].direction,
                    at: b.pins[i].at,
                },
        ),
        page: child.page@,
    }
}

impl WriterView {
    /// The document with a component on it.
    pub open spec fn with_comp(self, c: Comp, block: SexprView, p: PlacedComp) -> WriterView {
        let lib = LibView {
            id: c.geom.lib_id@,
            tree: block,
            pins: pin_numbers(c.geom.pins@),
        };
        (WriterView { libs: with_lib(self.libs, lib), ..self }).with_symbol(place_of(c, p))
    }

    pub open spec fn with_comps(
        self,
        design: DesignModel,
        blocks: Seq<SexprView>,
        placed: Seq<PlacedComp>,
        n: int,
    ) -> WriterView
        decreases n,
    {
        if n <= 0 || n > placed.len() {
            self
        } else {
            self.with_comps(design, blocks, placed, n - 1).with_comp(
                design.comps@[placed[n - 1].comp as int],
                blocks[placed[n - 1].comp as int],
                placed[n - 1],
            )
        }
    }

    pub open spec fn with_wires(self, wires: Seq<Seq<Point>>, n: int) -> WriterView
        decreases n,
    {
        if n <= 0 || n > wires.len() {
            self
        } else {
            self.with_wires(wires, n - 1).with_wire(wires[n - 1], wires[n - 1].len() - 1)
        }
    }

    pub open spec fn with_junctions(self, at: Seq<Point>, n: int) -> WriterView
        decreases n,
    {
        if n <= 0 || n > at.len() {
            self
        } else {
            self.with_junctions(at, n - 1).with_junction(at[n - 1])
        }
    }

    pub open spec fn with_net_labels(self, v: Seq<NetLabel>, n: int) -> WriterView
        decreases n,
    {
        if n <= 0 || n > v.len() {
            self
        } else {
            self.with_net_labels(v, n - 1).with_net_label(
                v[n - 1].net@,
                v[n - 1].at,
                v[n - 1].rotation as int,
            )
        }
    }

    pub open spec fn with_global_labels(self, v: Seq<GlobalLabel>, n: int) -> WriterView
        decreases n,
    {
        if n <= 0 || n > v.len() {
            self
        } else {
            self.with_global_labels(v, n - 1).with_global_label(
                v[n - 1].net@,
                v[n - 1].at,
                v[n - 1].rotation as int,
                v[n - 1].direction,
            )
        }
    }

    pub open spec fn with_hier_labels(self, v: Seq<HierLabel>, n: int) -> WriterView
        decreases n,
    {
        if n <= 0 || n > v.len() {
            self
        } else {
            self.with_hier_labels(v, n - 1).with_hier_label(
                v[n - 1].net@,
                v[n - 1].direction,
                v[n - 1].at,
                v[n - 1].rotation as int,
            )
        }
    }

    pub open spec fn with_power_symbols(self, v: Seq<PowerSymbol>, n: int) -> WriterView
        decreases n,
    {
        if n <= 0 || n > v.len() {
            self
        } else {
            self.with_power_symbols(v, n - 1).with_power_symbol(
                v[n - 1].net@,
                v[n - 1].at,
                v[n - 1].down,
            )
        }
    }

    pub open spec fn with_pwr_flags(self, v: Seq<PwrFlag>, n: int) -> WriterView
        decreases n,
    {
        if n <= 0 || n > v.len() {
            self
        } else {
            self.with_pwr_flags(v, n - 1).with_pwr_flag(v[n - 1].at, v[n - 1].rotation as int)
        }
    }

    pub open spec fn with_no_connects(self, at: Seq<Point>, n: int) -> WriterView
        decreases n,
    {
        if n <= 0 || n > at.len() {
            self
        } else {
            self.with_no_connects(at, n - 1).with_no_connect(at[n - 1])
        }
    }

    /// The document with the outlines and their titles.
    pub open spec fn with_zones(self, v: Seq<Zone>, n: int) -> WriterView
        decreases n,
    {
        if n <= 0 || n > v.len() {
            self
        } else {
            let z = v[n - 1].bbox;
            self.with_zones(v, n - 1).with_zone_rect(
                Point { x: z.x1, y: z.y1 },
                Point { x: z.x2, y: z.y2 },
            ).with_zone_title(
                zone_title(v[n - 1].kind),
                Point { x: sat(z.x1 + 5000), y: sat(z.y1 - 5000) },
            )
        }
    }

    /// The document with the blocks of child sheets.
    pub open spec fn with_blocks(self, plan: SheetPlan, v: Seq<BlockView>, n: int) -> WriterView
        decreases n,
    {
        if n <= 0 || n > v.len() {
            self
        } else {
            let before = self.with_blocks(plan, v, n - 1);
            if v[n - 1].sheet < plan.sheets@.len() {
                before.with_sheet_ref(block_of(plan.sheets@[v[n - 1].sheet as int], v[n - 1]))
            } else {
                before
            }
        }
    }

    /// The document with everything but the blocks of child sheets.
    pub open spec fn with_drawing(
        self,
        design: DesignModel,
        blocks: Seq<SexprView>,
        placed: Seq<PlacedComp>,
        r: RoutedSheet,
    ) -> WriterView {
        let wires = paths(r.wires@);
        self.with_comps(design, blocks, placed, placed.len() as int).with_wires(
            wires,
            wires.len() as int,
        ).with_junctions(r.junctions@, r.junctions@.len() as int).with_net_labels(
            r.net_labels@,
            r.net_labels@.len() as int,
        ).with_global_labels(
            r.global_labels@,
            r.global_labels@.len() as int,
        ).with_hier_labels(
            r.hier_labels@,
            r.hier_labels@.len() as int,
        ).with_power_symbols(
            r.power_symbols@,
            r.power_symbols@.len() as int,
        ).with_pwr_flags(r.pwr_flags@, r.pwr_flags@.len() as int).with_no_connects(
            r.no_connects@,
            r.no_connects@.len() as int,
        ).with_zones(r.zones@, r.zones@.len() as int)
    }
}

/// The numbers of the power references of a sheet start behind those of the sheets before it.
pub open spec fn power_offset(si: int) -> nat {
    if si * 1000 > u64::MAX {
        u64::MAX as nat
    } else {
        (si * 1000) as nat
    }
}

/// As long as no sheet holds more than a thousand power symbols, or flags, no two of a project have
/// the same reference.
pub proof fn law_power_refs_are_unique(a: WriterView, c: WriterView, si: int, sj: int)
    requires
        0 <= si,
        0 <= sj,
        si * 1000 <= u64::MAX,
        sj * 1000 <= u64::MAX,
        a.offset == power_offset(si),
        c.offset == power_offset(sj),
    ensures
        a.power_refs.len() < 1000 && c.power_refs.len() < 1000 && a.next_power_ref()
            == c.next_power_ref() ==> si == sj && a.power_refs.len() == c.power_refs.len(),
        a.flag_refs.len() < 1000 && c.flag_refs.len() < 1000 && a.next_flag_ref()
            == c.next_flag_ref() ==> si == sj && a.flag_refs.len() == c.flag_refs.len(),
{
    if a.next_power_ref() == c.next_power_ref() {
        let x = two_digits(a.offset + a.power_refs.len() + 1);
        let y = two_digits(c.offset + c.power_refs.len() + 1);
        let n = "#PWR"@.len() as int;
        assert(("#PWR"@ + x).skip(n) =~= x);
        assert(("#PWR"@ + y).skip(n) =~= y);
        law_two_digits_injective(
            a.offset + a.power_refs.len() + 1,
            c.offset + c.power_refs.len() + 1,
        );
    }
    if a.next_flag_ref() == c.next_flag_ref() {
        let x = two_digits(a.offset + a.flag_refs.len() + 1);
        let y = two_digits(c.offset + c.flag_refs.len() + 1);
        let n = "#FLG"@.len() as int;
        assert(("#FLG"@ + x).skip(n) =~= x);
        assert(("#FLG"@ + y).skip(n) =~= y);
        law_two_digits_injective(
            a.offset + a.flag_refs.len() + 1,
            c.offset + c.flag_refs.len() + 1,
        );
    }
}

/// The start of a sheet's document.
pub open spec fn sheet_options(
    sheet: SheetDef,
    extents: BBox,
    si: int,
    prefix: Option<Seq<char>>,
    opts: SchOptions,
) -> OptionsView {
    OptionsView {
        title: sheet.title@,
        file_name: sheet.file_name@,
        paper: paper_for(opts.config, extents).spec_kicad_name(),
        generator: opts.generator@,
        generator_version: opts.generator_version@,
        project: opts.project_name@,
        is_root: sheet.parent is None,
        prefix,
        offset: power_offset(si),
    }
}

/// A sheet before the blocks of its child sheets are drawn.
#[verifier::opaque]
pub open spec fn sheet_drawn(
    design: DesignModel,
    blocks: Seq<SexprView>,
    plan: SheetPlan,
    placed: Seq<PlacedComp>,
    r: RoutedSheet,
    si: int,
    prefix: Option<Seq<char>>,
    opts: SchOptions,
) -> WriterView {
    fresh_document(sheet_options(plan.sheets@[si], r.extents, si, prefix, opts)).with_drawing(
        design,
        blocks,
        placed,
        r,
    )
}

/// The sheets whose blocks are among the first `n`, each with its path among all sheets.
pub open spec fn child_paths(w: WriterView, plan: SheetPlan, v: Seq<BlockView>, n: int) -> Seq<
    (usize, Seq<char>),
>
    decreases n,
{
    if n <= 0 || n > v.len() {
        Seq::empty()
    } else {
        let before = child_paths(w, plan, v, n - 1);
        let s = v[n - 1].sheet;
        if s < plan.sheets@.len() {
            let at = w.with_blocks(plan, v, n - 1);
            before.push(
                (
                    s,
                    w.path_prefix() + seq!['/'] + at.sheet_id(
                        block_of(plan.sheets@[s as int], v[n - 1]),
                    ),
                ),
            )
        } else {
            before
        }
    }
}

pub open spec fn path_views(v: Seq<(usize, String)>) -> Seq<(usize, Seq<char>)> {
    Seq::new(v.len(), |i: int| (v[i].0, v[i].1@))
}

fn two_tokens(right: bool, other: &'static str) -> (r: Vec<&'static str>)
    ensures
        texts(r@) == if right {
            seq!["right"@, other@]
        } else {
            seq!["left"@, other@]
        },
{
    let r: Vec<&'static str> = if right {
        vec!["right", other]
    } else {
        vec!["left", other]
    };
    proof {
        assert(texts(r@) =~= if right {
            seq!["right"@, other@]
        } else {
            seq!["left"@, other@]
        });
    }
    r
}

fn opt_str(s: &Option<String>) -> (r: Option<&str>)
    ensures
        opt_text(r) == opt_chars(*s),
{
    match s {
        Some(t) => Some(t.as_str()),
        None => None,
    }
}

proof fn lemma_lib_registered(libs: Seq<LibView>, lib: LibView, i: int)
    requires
        0 <= i <= libs.len(),
        lib_at(libs, lib.id, i) is None,
    ensures
        lib_at(libs.push(lib), lib.id, i) == Some(libs.len() as int),
    decreases libs.len() - i,
{
    let r = libs.push(lib);
    if i < libs.len() {
        assert(r[i] == libs[i]);
        lemma_lib_registered(libs, lib, i + 1);
    }
}

fn draw_comp(w: &mut SheetWriter, c: &Comp, block: &Sexpr, p: &PlacedComp)
    ensures
        final(w)@ == old(w)@.with_comp(*c, block@, *p),
{
    let ghost before = w@;
    w.add_lib_symbol(&c.geom, block);
    let footprint: Option<String> = match &c.footprint {
        Some(t) => Some(t.show()),
        None => None,
    };
    let path_key: String = c.path_key.show();
    let lib_id: String = c.geom.lib_id.show();
    let value: String = c.value.show();
    let o: PlaceSymbol = PlaceSymbol {
        rotation: p.rotation,
        mirror: p.mirror,
        dnp: c.dnp,
        footprint: opt_str(&footprint),
        datasheet: opt_str(&c.datasheet),
        description: opt_str(&c.description),
        mpn: opt_str(&c.mpn),
        uuid_key: path_key.as_str(),
        ref_at: Some(p.ref_at),
        value_at: Some(p.value_at),
        ref_justify: two_tokens(p.ref_justify_right, "bottom"),
        value_justify: two_tokens(p.value_justify_right, "top"),
        ..PlaceSymbol::new(
            lib_id.as_str(),
            c.refdes.as_str(),
            value.as_str(),
            p.at,
        )
    };
    proof {
        assert(o@ == place_of(*c, *p));
        let lib = LibView {
            id: c.geom.lib_id@,
            tree: block@,
            pins: pin_numbers(c.geom.pins@),
        };
        if lib_at(before.libs, lib.id, 0) is None {
            lemma_lib_registered(before.libs, lib, 0);
        }
    }
    let _ = w.place_symbol(&o);
}

fn draw_comps(w: &mut SheetWriter, design: &DesignModel, blocks: &Vec<Sexpr>, placed: &[PlacedComp])
    requires
        blocks@.len() == design.comps@.len(),
        forall|i: int| 0 <= i < placed@.len() ==> (#[trigger] placed@[i]).comp < design.comps@.len(),
    ensures
        final(w)@ == old(w)@.with_comps(*design, trees(blocks@), placed@, placed@.len() as int),
{
    let ghost w0 = w@;
    let ghost bs = trees(blocks@);
    let mut n: usize = 0;
    while n < placed.len()
        invariant
            n <= placed.len(),
            forall|i: int|
                0 <= i < placed@.len() ==> (#[trigger] placed@[i]).comp < design.comps@.len(),
            blocks@.len() == design.comps@.len(),
            bs == trees(blocks@),
            w@ == w0.with_comps(*design, bs, placed@, n as int),
        decreases placed.len() - n,
    {
        let ci: usize = placed[n].comp;
        proof {
            assert(bs[ci as int] == blocks@[ci as int]@);
        }
        draw_comp(w, &design.comps[ci], &blocks[ci], &placed[n]);
        n = n + 1;
    }
}

fn draw_wires(w: &mut SheetWriter, v: &Vec<Vec<Point>>)
    ensures
        final(w)@ == old(w)@.with_wires(paths(v@), v@.len() as int),
{
    let ghost w0 = w@;
    let ghost ps = paths(v@);
    let mut n: usize = 0;
    while n < v.len()
        invariant
            n <= v.len(),
            ps == paths(v@),
            w@ == w0.with_wires(ps, n as int),
        decreases v.len() - n,
    {
        proof {
            assert(ps[n as int] == v@[n as int]@);
        }
        if v[n].len() >= 2 {
            w.add_wire(&v[n]);
        }
        n = n + 1;
    }
}

fn draw_junctions(w: &mut SheetWriter, v: &Vec<Point>)
    ensures
        final(w)@ == old(w)@.with_junctions(v@, v@.len() as int),
{
    let ghost w0 = w@;
    let mut n: usize = 0;
    while n < v.len()
        invariant
            n <= v.len(),
            w@ == w0.with_junctions(v@, n as int),
        decreases v.len() - n,
    {
        w.add_junction(v[n]);
        n = n + 1;
    }
}

fn draw_net_labels(w: &mut SheetWriter, v: &Vec<NetLabel>)
    ensures
        final(w)@ == old(w)@.with_net_labels(v@, v@.len() as int),
{
    let ghost w0 = w@;
    let mut n: usize = 0;
    while n < v.len()
        invariant
            n <= v.len(),
            w@ == w0.with_net_labels(v@, n as int),
        decreases v.len() - n,
    {
        w.add_net_label(v[n].net.as_str(), v[n].at, v[n].rotation);
        n = n + 1;
    }
}

fn draw_global_labels(w: &mut SheetWriter, v: &Vec<GlobalLabel>)
    ensures
        final(w)@ == old(w)@.with_global_labels(v@, v@.len() as int),
{
    let ghost w0 = w@;
    let mut n: usize = 0;
    while n < v.len()
        invariant
            n <= v.len(),
            w@ == w0.with_global_labels(v@, n as int),
        decreases v.len() - n,
    {
        w.add_global_label(v[n].net.as_str(), v[n].at, v[n].rotation, v[n].direction);
        n = n + 1;
    }
}

fn draw_hier_labels(w: &mut SheetWriter, v: &Vec<HierLabel>)
    ensures
        final(w)@ == old(w)@.with_hier_labels(v@, v@.len() as int),
{
    let ghost w0 = w@;
    let mut n: usize = 0;
    while n < v.len()
        invariant
            n <= v.len(),
            w@ == w0.with_hier_labels(v@, n as int),
        decreases v.len() - n,
    {
        w.add_hier_label(v[n].net.as_str(), v[n].direction, v[n].at, v[n].rotation);
        n = n + 1;
    }
}

fn draw_power_symbols(w: &mut SheetWriter, v: &Vec<PowerSymbol>)
    ensures
        final(w)@ == old(w)@.with_power_symbols(v@, v@.len() as int),
{
    let ghost w0 = w@;
    let mut n: usize = 0;
    while n < v.len()
        invariant
            n <= v.len(),
            w@ == w0.with_power_symbols(v@, n as int),
        decreases v.len() - n,
    {
        let _ = w.add_power_symbol(v[n].net.as_str(), v[n].at, v[n].down);
        n = n + 1;
    }
}

fn draw_pwr_flags(w: &mut SheetWriter, v: &Vec<PwrFlag>)
    ensures
        final(w)@ == old(w)@.with_pwr_flags(v@, v@.len() as int),
{
    let ghost w0 = w@;
    let mut n: usize = 0;
    while n < v.len()
        invariant
            n <= v.len(),
            w@ == w0.with_pwr_flags(v@, n as int),
        decreases v.len() - n,
    {
        let _ = w.add_pwr_flag(v[n].at, v[n].rotation);
        n = n + 1;
    }
}

fn draw_no_connects(w: &mut SheetWriter, v: &Vec<Point>)
    ensures
        final(w)@ == old(w)@.with_no_connects(v@, v@.len() as int),
{
    let ghost w0 = w@;
    let mut n: usize = 0;
    while n < v.len()
        invariant
            n <= v.len(),
            w@ == w0.with_no_connects(v@, n as int),
        decreases v.len() - n,
    {
        w.add_no_connect(v[n]);
        n = n + 1;
    }
}

fn draw_zones(w: &mut SheetWriter, v: &Vec<Zone>)
    ensures
        final(w)@ == old(w)@.with_zones(v@, v@.len() as int),
{
    let ghost w0 = w@;
    let mut n: usize = 0;
    while n < v.len()
        invariant
            n <= v.len(),
            w@ == w0.with_zones(v@, n as int),
        decreases v.len() - n,
    {
        let z: BBox = v[n].bbox;
        w.add_zone_rect(Point { x: z.x1, y: z.y1 }, Point { x: z.x2, y: z.y2 });
        w.add_zone_title(
            title_of_zone(v[n].kind),
            Point { x: to_iu(z.x1 as i64 + 5000), y: to_iu(z.y1 as i64 - 5000) },
        );
        n = n + 1;
    }
}

fn block_ref(child: &SheetDef, b: &BlockModel) -> (r: SheetRef)
    ensures
        r@ == block_of(*child, b@),
{
    let mut pins: Vec<SheetRefPin> = Vec::new();
    let mut n: usize = 0;
    while n < b.pins.len()
        invariant
            n <= b.pins.len(),
            pins@.len() == n,
            forall|i: int|
                0 <= i < n ==> (#[trigger] pins@[i]).name@ == b.pins@[i].net@ && pins@[i].direction
                    == b.pins@[i].direction && pins@[i].at == b.pins@[i].at,
        decreases b.pins.len() - n,
    {
        pins.push(
            SheetRefPin {
                name: b.pins[n].net.clone(),
                direction: b.pins[n].direction,
                at: b.pins[n].at,
            },
        );
        n = n + 1;
    }
    let r: SheetRef = SheetRef {
        file_name: child.file_name.show(),
        title: child.title.show(),
        at: b.at,
        size: b.size,
        pins,
        page: child.page.show(),
    };
    proof {
        assert(r@.pins =~= block_of(*child, b@).pins);
    }
    r
}

fn draw_blocks(w: &mut SheetWriter, plan: &SheetPlan, v: &Vec<BlockModel>) -> (r: Vec<(usize, String)>)
    ensures
        final(w)@ == old(w)@.with_blocks(*plan, blocks_view(v@), v@.len() as int),
        path_views(r@) == child_paths(old(w)@, *plan, blocks_view(v@), v@.len() as int),
        forall|i: int| 0 <= i < r@.len() ==> (#[trigger] r@[i]).0 < plan.sheets@.len(),
{
    let ghost w0 = w@;
    let ghost bs = blocks_view(v@);
    let own: String = w.path_prefix_public();
    let mut out: Vec<(usize, String)> = Vec::new();
    let mut n: usize = 0;
    proof {
        assert(path_views(out@) =~= Seq::empty());
    }
    while n < v.len()
        invariant
            n <= v.len(),
            bs == blocks_view(v@),
            own@ == w0.path_prefix(),
            w@ == w0.with_blocks(*plan, bs, n as int),
            path_views(out@) == child_paths(w0, *plan, bs, n as int),
            forall|i: int| 0 <= i < out@.len() ==> (#[trigger] out@[i]).0 < plan.sheets@.len(),
        decreases v.len() - n,
    {
        proof {
            assert(bs[n as int] == v@[n as int]@);
        }
        let si: usize = v[n].sheet;
        if si < plan.sheets.len() {
            let block: SheetRef = block_ref(&plan.sheets[si], &v[n]);
            let id: String = w.add_sheet_ref(&block);
            let mut path: Vec<char> = chars_of(own.as_str());
            path.push('/');
            append_chars(&mut path, &chars_of(id.as_str()));
            let ghost before = path_views(out@);
            let text: String = text_of(&path);
            out.push((si, text));
            proof {
                assert(path@ =~= own@ + seq!['/'] + id@);
                assert(path_views(out@) =~= before.push((si, text@)));
            }
        }
        n = n + 1;
    }
    out
}

/// Write the document of a sheet, and the paths of its child sheets.
fn emit_sheet(
    design: &DesignModel,
    blocks: &Vec<Sexpr>,
    plan: &SheetPlan,
    model: &SheetModel,
    routed: &RoutedSheet,
    si: usize,
    prefix: Option<String>,
    opts: &SchOptions,
) -> (r: (Sexpr, Vec<(usize, String)>))
    requires
        si < plan.sheets@.len(),
        blocks@.len() == design.comps@.len(),
        model.wf(*design),
    ensures
        ({
            let w = sheet_drawn(
                *design,
                trees(blocks@),
                *plan,
                model.placed@,
                *routed,
                si as int,
                opt_chars(prefix),
                *opts,
            );
            let kids = blocks_view(routed.blocks@);
            &&& r.0@ == w.with_blocks(*plan, kids, kids.len() as int).document()
            &&& path_views(r.1@) == child_paths(w, *plan, kids, kids.len() as int)
        }),
        forall|i: int| 0 <= i < r.1@.len() ==> (#[trigger] r.1@[i]).0 < plan.sheets@.len(),
{
    proof {
        reveal(sheet_drawn);
    }
    let sheet: &SheetDef = &plan.sheets[si];
    let wide: u128 = si as u128 * 1000;
    let power_ref_offset: u64 = if wide > u64::MAX as u128 {
        u64::MAX
    } else {
        wide as u64
    };
    let options: SheetWriterOptions = SheetWriterOptions {
        title: sheet.title.show(),
        file_name: sheet.file_name.show(),
        paper: pick_paper(&opts.config, &routed.extents).kicad_name().to_owned(),
        generator: opts.generator.clone(),
        generator_version: opts.generator_version.clone(),
        project_name: opts.project_name.clone(),
        is_root: sheet.parent.is_none(),
        instance_path_prefix: prefix,
        power_ref_offset,
    };
    proof {
        assert(options@ == sheet_options(
            *sheet,
            routed.extents,
            si as int,
            opt_chars(prefix),
            *opts,
        ));
    }
    let mut w: SheetWriter = SheetWriter::new(options);
    draw_comps(&mut w, design, blocks, &model.placed);
    draw_wires(&mut w, &routed.wires);
    draw_junctions(&mut w, &routed.junctions);
    draw_net_labels(&mut w, &routed.net_labels);
    draw_global_labels(&mut w, &routed.global_labels);
    draw_hier_labels(&mut w, &routed.hier_labels);
    draw_power_symbols(&mut w, &routed.power_symbols);
    draw_pwr_flags(&mut w, &routed.pwr_flags);
    draw_no_connects(&mut w, &routed.no_connects);
    draw_zones(&mut w, &routed.zones);
    let children: Vec<(usize, String)> = draw_blocks(&mut w, plan, &routed.blocks);
    (w.serialize(), children)
}

// ---------------------------------------------------------------- all documents

/// The steps of a generation: the design, its sheets, and each sheet placed and routed.
pub struct Steps {
    pub design: DesignModel,
    /// The symbol blocks of the components.
    pub symbols: Seq<SexprView>,
    pub plan: SheetPlan,
    pub placed: Seq<SheetModel>,
    pub finished: Seq<SheetModel>,
    pub routed: Seq<RoutedSheet>,
    pub said: Seq<Seq<Warning>>,
}

impl Steps {
    /// The rails that a sheet flags.
    pub open spec fn flags(self, si: int) -> Seq<String> {
        flags_on(self.design, self.plan.comp_sheet@, si, self.design.nets@.len() as int)
    }

    /// Sheet number `si` is placed as planned, and routed as it is placed.
    pub open spec fn sheet_done(self, cfg: SchConfig, si: int) -> bool {
        &&& is_placed(self.placed[si], self.design, self.plan, si, cfg)
        &&& is_routed(
            self.placed[si],
            self.finished[si],
            self.design,
            self.plan,
            cfg,
            self.flags(si),
            self.routed[si],
            self.said[si],
        )
    }

    /// The first `n` sheets are placed and routed.
    pub open spec fn sheets_done(self, cfg: SchConfig, n: int) -> bool {
        &&& self.placed.len() == n
        &&& self.finished.len() == n
        &&& self.routed.len() == n
        &&& self.said.len() == n
        &&& forall|si: int| 0 <= si < n ==> #[trigger] self.sheet_done(cfg, si)
    }

    /// The remarks on the first `n` sheets.
    pub open spec fn sheets_said(self, cfg: SchConfig, n: int) -> Seq<Warning>
        decreases n,
    {
        if n <= 0 {
            Seq::empty()
        } else {
            self.sheets_said(cfg, n - 1) + placing_said(
                self.placed[n - 1],
                self.design,
                self.plan,
                n - 1,
                cfg,
            ) + self.said[n - 1]
        }
    }

    /// Sheet number `si` without the blocks of its child sheets.
    pub open spec fn drawn(self, opts: SchOptions, si: int, prefix: Option<Seq<char>>) -> WriterView {
        sheet_drawn(
            self.design,
            self.symbols,
            self.plan,
            self.finished[si].placed@,
            self.routed[si],
            si,
            prefix,
            opts,
        )
    }

    pub open spec fn blocks(self, si: int) -> Seq<BlockView> {
        blocks_view(self.routed[si].blocks@)
    }

    /// The paths of the sheets that are known once the first `n` sheets are written.
    pub open spec fn paths_upto(self, opts: SchOptions, n: int) -> Seq<Option<Seq<char>>>
        decreases n,
    {
        if n <= 0 {
            Seq::new(self.plan.sheets@.len(), |i: int| None)
        } else {
            let before = self.paths_upto(opts, n - 1);
            let w = self.drawn(opts, n - 1, before[n - 1]);
            let kids = child_paths(w, self.plan, self.blocks(n - 1), self.blocks(n - 1).len() as int);
            with_paths(before, kids, kids.len() as int)
        }
    }

    /// The document of sheet number `si`.
    pub open spec fn document(self, opts: SchOptions, si: int) -> SexprView {
        self.drawn(opts, si, self.paths_upto(opts, si)[si]).with_blocks(
            self.plan,
            self.blocks(si),
            self.blocks(si).len() as int,
        ).document()
    }

    /// All steps are those of the design with these options.
    pub open spec fn are_steps(self, sch: Schematic, opts: SchOptions) -> bool {
        &&& is_design(self.design, sch, opts.config.bulk_capacitance_pf)
        &&& self.symbols == blocks_of(sch)
        &&& sheet_views(self.plan.sheets@) == planned(
            sch,
            self.design,
            opts.config,
            opts.project_name@,
        )
        &&& self.plan.comp_sheet@.len() == self.design.comps@.len()
        &&& forall|ci: int|
            0 <= ci < self.design.comps@.len() ==> #[trigger] self.plan.comp_sheet@[ci] == sheet_of(
                sheet_views(self.plan.sheets@),
                ci,
                self.plan.sheets@.len() as int,
            )
        &&& self.sheets_done(opts.config, self.plan.sheets@.len() as int)
    }
}

/// The paths with the first `n` of the listed ones set.
pub open spec fn with_paths(v: Seq<Option<Seq<char>>>, kids: Seq<(usize, Seq<char>)>, n: int) -> Seq<
    Option<Seq<char>>,
>
    decreases n,
{
    if n <= 0 || n > kids.len() {
        v
    } else {
        with_paths(v, kids, n - 1).update(kids[n - 1].0 as int, Some(kids[n - 1].1))
    }
}

/// The generated documents are those of the steps.
#[verifier::opaque]
pub open spec fn is_generated(g: GeneratedSchematic, sch: Schematic, opts: SchOptions, st: Steps) -> bool {
    let n = st.plan.sheets@.len() as int;
    &&& st.are_steps(sch, opts)
    &&& g.root_file_name@ == st.plan.sheets@[0].file_name@
    &&& g.files@.len() == n
    &&& forall|si: int|
        0 <= si < n ==> (#[trigger] g.files@[si]).file_name@ == st.plan.sheets@[si].file_name@
            && g.files@[si].content@ == st.document(opts, si)
    &&& g.warnings@ == st.design.warnings@ + dense_said(
        st.plan.sheets@,
        opts.config.max_parts_per_sheet,
        n,
    ) + st.sheets_said(opts.config, n)
}

/// The documents are generated by some steps.
#[verifier::opaque]
pub open spec fn generates(g: GeneratedSchematic, sch: Schematic, opts: SchOptions) -> bool {
    exists|st: Steps| #[trigger] is_generated(g, sch, opts, st)
}

proof fn lemma_generates(g: GeneratedSchematic, sch: Schematic, opts: SchOptions, st: Steps)
    requires
        is_generated(g, sch, opts, st),
    ensures
        generates(g, sch, opts),
{
    reveal(generates);
}

/// Every file that a block on a sheet names is written: it is the document of the sheet that the
/// block stands for.
pub proof fn law_named_files_are_written(
    g: GeneratedSchematic,
    sch: Schematic,
    opts: SchOptions,
    st: Steps,
    si: int,
    k: int,
)
    requires
        is_generated(g, sch, opts, st),
        0 <= si < st.plan.sheets@.len(),
        0 <= k < st.blocks(si).len(),
        st.blocks(si)[k].sheet < st.plan.sheets@.len(),
    ensures
        ({
            let child = st.blocks(si)[k].sheet as int;
            g.files@[child].file_name@ == block_of(
                st.plan.sheets@[child],
                st.blocks(si)[k],
            ).file_name
        }),
{
    reveal(is_generated);
    let child = st.blocks(si)[k].sheet as int;
    assert(g.files@[child].file_name@ == st.plan.sheets@[child].file_name@);
}

pub open spec fn opt_views(v: Seq<Option<String>>) -> Seq<Option<Seq<char>>> {
    Seq::new(v.len(), |i: int| opt_chars(v[i]))
}

fn set_paths(v: &mut Vec<Option<String>>, kids: Vec<(usize, String)>)
    requires
        forall|i: int| 0 <= i < kids@.len() ==> (#[trigger] kids@[i]).0 < old(v)@.len(),
    ensures
        opt_views(final(v)@) == with_paths(
            opt_views(old(v)@),
            path_views(kids@),
            kids@.len() as int,
        ),
        final(v)@.len() == old(v)@.len(),
{
    let ghost v0 = opt_views(v@);
    let ghost ks = path_views(kids@);
    let mut n: usize = 0;
    while n < kids.len()
        invariant
            n <= kids.len(),
            v@.len() == v0.len(),
            ks == path_views(kids@),
            forall|i: int| 0 <= i < kids@.len() ==> (#[trigger] kids@[i]).0 < v0.len(),
            opt_views(v@) == with_paths(v0, ks, n as int),
        decreases kids.len() - n,
    {
        let at: usize = kids[n].0;
        let ghost before = opt_views(v@);
        v.set(at, Some(kids[n].1.clone()));
        n = n + 1;
        proof {
            assert(ks[n - 1] == (kids@[n - 1].0, kids@[n - 1].1@));
            assert(opt_views(v@) =~= before.update(at as int, Some(ks[n - 1].1)));
        }
    }
}

/// Sheets that are done stay done when another one is.
proof fn lemma_sheets_done(a: Steps, b: Steps, cfg: SchConfig, n: int)
    requires
        a.sheets_done(cfg, n),
        b.design == a.design,
        b.plan == a.plan,
        b.placed.len() == n + 1,
        b.finished.len() == n + 1,
        b.routed.len() == n + 1,
        b.said.len() == n + 1,
        n >= 0,
        forall|i: int|
            0 <= i < n ==> #[trigger] b.placed[i] == a.placed[i] && b.finished[i] == a.finished[i]
                && b.routed[i] == a.routed[i] && b.said[i] == a.said[i],
        b.sheet_done(cfg, n),
    ensures
        b.sheets_done(cfg, n + 1),
        b.sheets_said(cfg, n) == a.sheets_said(cfg, n),
{
    assert forall|si: int| 0 <= si < n + 1 implies #[trigger] b.sheet_done(cfg, si) by {
        if si < n {
            assert(a.sheet_done(cfg, si));
            assert(b.placed[si] == a.placed[si]);
        }
    }
    assert forall|i: int| 0 <= i < n implies #[trigger] b.placed[i] == a.placed[i] && b.said[i]
        == a.said[i] by {}
    lemma_said_same(a, b, cfg, n);
}

proof fn lemma_said_same(a: Steps, b: Steps, cfg: SchConfig, n: int)
    requires
        b.design == a.design,
        b.plan == a.plan,
        forall|i: int|
            0 <= i < n ==> #[trigger] b.placed[i] == a.placed[i] && b.said[i] == a.said[i],
    ensures
        b.sheets_said(cfg, n) == a.sheets_said(cfg, n),
    decreases n,
{
    if n > 0 {
        lemma_said_same(a, b, cfg, n - 1);
        assert(b.placed[n - 1] == a.placed[n - 1]);
    }
}

fn emit_all(
    design: &DesignModel,
    symbols: &Vec<Sexpr>,
    plan: &SheetPlan,
    models: &Vec<SheetModel>,
    routed: &Vec<RoutedSheet>,
    opts: &SchOptions,
    Ghost(st): Ghost<Steps>,
) -> (r: Vec<SchFile>)
    requires
        st.design == *design,
        st.symbols == trees(symbols@),
        symbols@.len() == design.comps@.len(),
        st.plan == *plan,
        st.finished == models@,
        st.routed == routed@,
        models@.len() == plan.sheets@.len(),
        routed@.len() == plan.sheets@.len(),
        forall|i: int| 0 <= i < models@.len() ==> (#[trigger] models@[i]).wf(*design),
    ensures
        r@.len() == plan.sheets@.len(),
        forall|si: int|
            0 <= si < r@.len() ==> (#[trigger] r@[si]).file_name@ == plan.sheets@[si].file_name@
                && r@[si].content@ == st.document(*opts, si),
{
    let count: usize = plan.sheets.len();
    let mut prefixes: Vec<Option<String>> = Vec::new();
    let mut i: usize = 0;
    while i < count
        invariant
            i <= count,
            prefixes@.len() == i,
            forall|k: int| 0 <= k < i ==> #[trigger] prefixes@[k] is None,
        decreases count - i,
    {
        prefixes.push(None);
        i = i + 1;
    }
    let mut files: Vec<SchFile> = Vec::new();
    let mut si: usize = 0;
    proof {
        assert(opt_views(prefixes@) =~= st.paths_upto(*opts, 0));
    }
    while si < count
        invariant
            si <= count,
            count == plan.sheets@.len(),
            prefixes@.len() == count,
            st.design == *design,
            st.symbols == trees(symbols@),
            symbols@.len() == design.comps@.len(),
            st.plan == *plan,
            st.finished == models@,
            st.routed == routed@,
            models@.len() == count,
            routed@.len() == count,
            forall|i: int| 0 <= i < models@.len() ==> (#[trigger] models@[i]).wf(*design),
            opt_views(prefixes@) == st.paths_upto(*opts, si as int),
            files@.len() == si,
            forall|k: int|
                0 <= k < si ==> (#[trigger] files@[k]).file_name@ == plan.sheets@[k].file_name@
                    && files@[k].content@ == st.document(*opts, k),
        decreases count - si,
    {
        let prefix: Option<String> = crate::extract::copy_text(&prefixes[si]);
        proof {
            assert(opt_views(prefixes@)[si as int] == opt_chars(prefix));
        }
        let (content, kids): (Sexpr, Vec<(usize, String)>) = emit_sheet(
            design,
            symbols,
            plan,
            &models[si],
            &routed[si],
            si,
            prefix,
            opts,
        );
        let ghost kv = path_views(kids@);
        proof {
            assert(kv.len() == kids@.len());
        }
        set_paths(&mut prefixes, kids);
        files.push(SchFile { file_name: plan.sheets[si].file_name.show(), content });
        si = si + 1;
    }
    files
}

/// Place and route all sheets.
fn draw_sheets(
    design: &DesignModel,
    plan: &SheetPlan,
    cfg: &SchConfig,
    warnings: &mut Vec<Warning>,
    Ghost(symbols): Ghost<Seq<SexprView>>,
) -> (r: (Vec<SheetModel>, Vec<RoutedSheet>, Ghost<Steps>))
    requires
        cfg.wf(),
        design.wf(),
        plan.links_wf(*design),
        plan.comp_sheet@.len() == design.comps@.len(),
        forall|s: int|
            0 <= s < plan.sheets@.len() ==> below(
                (#[trigger] plan.sheets@[s]).comps@,
                design.comps@.len() as int,
            ) && below(plan.sheets@[s].children@, plan.sheets@.len() as int),
    ensures
        r.2@.design == *design,
        r.2@.symbols == symbols,
        r.2@.plan == *plan,
        r.2@.finished == r.0@,
        r.2@.routed == r.1@,
        r.2@.sheets_done(*cfg, plan.sheets@.len() as int),
        forall|i: int| 0 <= i < r.0@.len() ==> (#[trigger] r.0@[i]).wf(*design),
        final(warnings)@ == old(warnings)@ + r.2@.sheets_said(*cfg, plan.sheets@.len() as int),
{
    let ghost w0 = warnings@;
    let count: usize = plan.sheets.len();
    let mut models: Vec<SheetModel> = Vec::new();
    let mut routed: Vec<RoutedSheet> = Vec::new();
    let ghost mut st = Steps {
        design: *design,
        symbols,
        plan: *plan,
        placed: Seq::empty(),
        finished: Seq::empty(),
        routed: Seq::empty(),
        said: Seq::empty(),
    };
    let mut si: usize = 0;
    proof {
        assert(models@ =~= st.finished);
        assert(routed@ =~= st.routed);
        assert(w0 =~= w0 + st.sheets_said(*cfg, 0));
    }
    while si < count
        invariant
            si <= count,
            count == plan.sheets@.len(),
            cfg.wf(),
            design.wf(),
            plan.links_wf(*design),
            plan.comp_sheet@.len() == design.comps@.len(),
            forall|s: int|
                0 <= s < plan.sheets@.len() ==> below(
                    (#[trigger] plan.sheets@[s]).comps@,
                    design.comps@.len() as int,
                ) && below(plan.sheets@[s].children@, plan.sheets@.len() as int),
            st.design == *design,
            st.symbols == symbols,
            st.plan == *plan,
            st.finished == models@,
            st.routed == routed@,
            st.sheets_done(*cfg, si as int),
            forall|i: int| 0 <= i < models@.len() ==> (#[trigger] models@[i]).wf(*design),
            warnings@ == w0 + st.sheets_said(*cfg, si as int),
        decreases count - si,
    {
        let flags: Vec<String> = list_flags(design, &plan.comp_sheet, si);
        let ghost before = warnings@;
        proof {
            assert(below(plan.sheets@[si as int].comps@, design.comps@.len() as int));
        }
        let mut model: SheetModel = place_sheet(design, plan, si, cfg, warnings);
        let ghost m0 = model;
        let ghost mid = warnings@;
        let out: RoutedSheet = route_sheet(design, plan, &mut model, cfg, &flags, warnings);
        let ghost old_st = st;
        proof {
            let said = choose|said: Seq<Warning>| #[trigger]
                is_routed(m0, model, *design, *plan, *cfg, flags@, out, said) && warnings@ == mid
                    + said;
            st = Steps {
                design: *design,
                symbols,
                plan: *plan,
                placed: old_st.placed.push(m0),
                finished: old_st.finished.push(model),
                routed: old_st.routed.push(out),
                said: old_st.said.push(said),
            };
            assert(st.sheet_done(*cfg, si as int));
            lemma_sheets_done(old_st, st, *cfg, si as int);
            assert(warnings@ =~= w0 + st.sheets_said(*cfg, si + 1));
        }
        models.push(model);
        routed.push(out);
        si = si + 1;
    }
    (models, routed, Ghost(st))
}

/// Generate the documents of an evaluated design.
pub fn generate_schematic(sch: &Schematic, opts: &SchOptions) -> (r: Result<
    GeneratedSchematic,
    BuildError,
>)
    requires
        sch.wf(),
        opts.config.wf(),
    ensures
        r is Ok <==> first_unsound(*sch, comp_order(*sch), 0) is None,
        r matches Ok(g) ==> generates(g, *sch, *opts),
        r matches Err(e) ==> is_fault(
            e,
            *sch,
            sch.instances@[comp_order(*sch)[first_unsound(
                *sch,
                comp_order(*sch),
                0,
            )->0] as int],
        ),
{
    let cfg: &SchConfig = &opts.config;
    let design: DesignModel = match DesignModel::build(sch, cfg) {
        Ok(d) => d,
        Err(e) => return Err(e),
    };
    let mut warnings: Vec<Warning> = copy_warnings(&design.warnings);
    let plan: SheetPlan = plan_sheets(sch, &design, cfg, &opts.project_name, &mut warnings);
    Ok(finish(sch, &design, &plan, opts, warnings))
}

fn finish(sch: &Schematic, design: &DesignModel, plan: &SheetPlan, opts: &SchOptions, warnings: Vec<Warning>) -> (r:
    GeneratedSchematic)
    requires
        opts.config.wf(),
        first_unsound(*sch, comp_order(*sch), 0) is None,
        is_design(*design, *sch, opts.config.bulk_capacitance_pf),
        design.wf(),
        sheet_views(plan.sheets@) == planned(*sch, *design, opts.config, opts.project_name@),
        plan.sheets@.len() > 0,
        plan.links_wf(*design),
        plan.comp_sheet@.len() == design.comps@.len(),
        forall|ci: int|
            0 <= ci < design.comps@.len() ==> #[trigger] plan.comp_sheet@[ci] == sheet_of(
                sheet_views(plan.sheets@),
                ci,
                plan.sheets@.len() as int,
            ),
        forall|s: int|
            0 <= s < plan.sheets@.len() ==> below(
                (#[trigger] plan.sheets@[s]).comps@,
                design.comps@.len() as int,
            ) && below(plan.sheets@[s].children@, plan.sheets@.len() as int),
        warnings@ == design.warnings@ + dense_said(
            plan.sheets@,
            opts.config.max_parts_per_sheet,
            plan.sheets@.len() as int,
        ),
    ensures
        generates(r, *sch, *opts),
{
    proof {
        reveal(is_generated);
        reveal(is_design);
    }
    let symbols: Vec<Sexpr> = list_blocks(sch, &design.comps);
    proof {
        assert(trees(symbols@).len() == symbols@.len());
    }
    let mut warnings: Vec<Warning> = warnings;
    let (models, routed, Ghost(st)): (Vec<SheetModel>, Vec<RoutedSheet>, Ghost<Steps>) =
        draw_sheets(design, plan, &opts.config, &mut warnings, Ghost(trees(symbols@)));
    let files: Vec<SchFile> = emit_all(design, &symbols, plan, &models, &routed, opts, Ghost(st));
    let g: GeneratedSchematic = GeneratedSchematic {
        files,
        root_file_name: plan.sheets[0].file_name.show(),
        warnings,
    };
    proof {
        assert(st.are_steps(*sch, *opts));
        lemma_generates(g, *sch, *opts, st);
    }
    g
}

fn copy_warning(w: &Warning) -> (r: Warning)
    ensures
        r == *w,
{
    match w {
        Warning::BoxSymbol { refdes, path } => Warning::BoxSymbol {
            refdes: refdes.clone(),
            path: path.clone(),
        },
        Warning::DenseSheet { title, count, max } => Warning::DenseSheet {
            title: title.clone(),
            count: *count,
            max: *max,
        },
        Warning::ManualMultiUnit { key } => Warning::ManualMultiUnit { key: key.clone() },
        Warning::ManualNotFound { key } => Warning::ManualNotFound { key: key.clone() },
        Warning::ManualSnapped { refdes, dx, dy } => Warning::ManualSnapped {
            refdes: refdes.clone(),
            dx: *dx,
            dy: *dy,
        },
        Warning::ManualTranslated { dx, dy } => Warning::ManualTranslated { dx: *dx, dy: *dy },
        Warning::AnchorNotFound { anchor, refdes } => Warning::AnchorNotFound {
            anchor: anchor.clone(),
            refdes: refdes.clone(),
        },
        Warning::AnchorChain { refdes } => Warning::AnchorChain { refdes: refdes.clone() },
        Warning::Stranded { refdes, first } => Warning::Stranded {
            refdes: refdes.clone(),
            first: *first,
        },
        Warning::Overlap { refdes } => Warning::Overlap { refdes: refdes.clone() },
        Warning::PowerStubOverlap { net, refdes } => Warning::PowerStubOverlap {
            net: net.clone(),
            refdes: refdes.clone(),
        },
        Warning::PowerStubContact { net, refdes } => Warning::PowerStubContact {
            net: net.clone(),
            refdes: refdes.clone(),
        },
        Warning::AnalogBroken { net, wired, total } => Warning::AnalogBroken {
            net: net.clone(),
            wired: *wired,
            total: *total,
        },
        Warning::RootPorts => Warning::RootPorts,
        Warning::PortFallback { net } => Warning::PortFallback { net: net.clone() },
        Warning::TextOverlap { refdes } => Warning::TextOverlap { refdes: refdes.clone() },
    }
}

fn copy_warnings(v: &[Warning]) -> (r: Vec<Warning>)
    ensures
        r@ == v@,
{
    let mut out: Vec<Warning> = Vec::new();
    let mut n: usize = 0;
    while n < v.len()
        invariant
            n <= v.len(),
            out@ =~= v@.take(n as int),
        decreases v.len() - n,
    {
        out.push(copy_warning(&v[n]));
        n = n + 1;
    }
    proof {
        assert(out@ =~= v@);
    }
    out
}

} // verus!
