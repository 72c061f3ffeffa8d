//! Which sheets a design is drawn on.
//!
//! The root module is the first sheet. Every other module gets a sheet of its own, unless it is
//! drawn on the sheet of its parent: because it asks for it, because it holds passive parts only,
//! or because it is small. Signals that cross the boundary of a sheet become its ports.

use vstd::prelude::*;
use crate::anchors::below;
use crate::config::SchConfig;
use crate::model::{DesignModel, NetClass, NetModel, PadRef};
use crate::names::{fresh, fresh_name, slug, slugify, views};
use crate::netlist::{comp_at, find_comp, parts, PartView};
use crate::order::{includes, list_includes};
use crate::schematic::{
    child_order, copy_path, dotted, dotted_path, order_children, Child, Instance, InstanceKind,
    Schematic,
};
use crate::text::{boxed, chars_of, decimal, is_text, text_of, to_decimal, Text};
use crate::warning::Warning;
use crate::writer::PortDirection;

verus! {

/// One planned sheet.
#[derive(Debug)]
pub struct SheetDef {
    /// Instance path of the module; empty for the root.
    pub instance_path: Box<[String]>,
    pub title: Text,
    /// Output file, unique in the plan.
    pub file_name: Text,
    /// Page number.
    pub page: Text,
    /// Components drawn on this sheet.
    pub comps: Box<[usize]>,
    /// Signal nets that cross the boundary of this sheet.
    pub ports: Box<[SheetPort]>,
    /// The sheet that holds the block of this one; none for the root.
    pub parent: Option<usize>,
    pub children: Box<[usize]>,
}

/// The contents of a [`SheetDef`].
pub struct SheetView {
    pub instance_path: Seq<String>,
    pub title: Seq<char>,
    pub file_name: Seq<char>,
    pub page: Seq<char>,
    pub comps: Seq<usize>,
    pub ports: Seq<SheetPort>,
    pub parent: Option<usize>,
    pub children: Seq<usize>,
}

impl View for SheetDef {
    type V = SheetView;

    open spec fn view(&self) -> SheetView {
        SheetView {
            instance_path: self.instance_path@,
            title: self.title@,
            file_name: self.file_name@,
            page: self.page@,
            comps: self.comps@,
            ports: self.ports@,
            parent: self.parent,
            children: self.children@,
        }
    }
}

pub open spec fn sheet_views(v: Seq<SheetDef>) -> Seq<SheetView> {
    Seq::new(v.len(), |i: int| v[i]@)
}

/// A net that enters a sheet from its parent.
#[derive(Clone, Copy, Debug, PartialEq, Eq, Structural)]
pub struct SheetPort {
    /// Index of the net in the design.
    pub net: usize,
    pub direction: PortDirection,
}

/// The sheets of a design; the first one is the root.
#[derive(Debug)]
pub struct SheetPlan {
    pub sheets: Box<[SheetDef]>,
    /// Sheet of every component.
    pub comp_sheet: Box<[usize]>,
}

impl SheetPlan {
    /// Children are sheets of the plan, and ports are nets of the design.
    pub open spec fn links_wf(&self, design: DesignModel) -> bool {
        &&& forall|s: int, c: int|
            0 <= s < self.sheets@.len() && 0 <= c < self.sheets@[s].children@.len() ==> #[trigger] self.sheets@[s].children@[c]
                < self.sheets@.len()
        &&& forall|s: int, p: int|
            0 <= s < self.sheets@.len() && 0 <= p < self.sheets@[s].ports@.len() ==> (
            #[trigger] self.sheets@[s].ports@[p]).net < design.nets@.len()
    }
}

// ---------------------------------------------------------------- which modules are sheets

/// What a decision on a module needs.
pub struct Site {
    pub sch: Schematic,
    pub ps: Seq<PartView>,
    /// Is the part one that others are placed around?
    pub major: Seq<bool>,
    pub cfg: SchConfig,
}

/// A module below another one, under its name.
#[derive(Debug)]
pub struct Branch {
    pub name: String,
    pub instance: usize,
}

impl Site {
    pub open spec fn count(self) -> int {
        self.sch.instances@.len() as int
    }

    pub open spec fn children(self, i: int) -> Seq<Child> {
        self.sch.instances@[i].children@
    }

    /// Child number `k` of instance `i`, in the natural order of the names.
    pub open spec fn child(self, i: int, k: int) -> Child {
        self.children(i)[child_order(self.children(i))[k] as int]
    }

    /// Child number `k` is a module.
    pub open spec fn module_at(self, i: int, k: int) -> bool {
        let c = self.child(i, k).instance;
        i < c < self.count() && self.sch.instances@[c as int].kind == InstanceKind::Module
    }

    /// The component that child number `k` is.
    pub open spec fn comp_of(self, i: int, k: int) -> Option<int> {
        let c = self.child(i, k).instance;
        if c < self.count() && self.sch.instances@[c as int].kind == InstanceKind::Component {
            comp_at(self.ps, dotted(self.sch.instances@[c as int].path@), self.ps.len() as int)
        } else {
            None
        }
    }

    /// The components among the first `k` children.
    pub open spec fn own_comps(self, i: int, k: int) -> Seq<usize>
        decreases k,
    {
        if k <= 0 || k > self.children(i).len() {
            Seq::empty()
        } else {
            match self.comp_of(i, k - 1) {
                Some(ci) => self.own_comps(i, k - 1).push(ci as usize),
                None => self.own_comps(i, k - 1),
            }
        }
    }

    /// The module is drawn on a sheet of its own.
    pub open spec fn is_sheet(self, i: int) -> bool
        decreases self.count() - i, 1nat, 0int,
    {
        if !(0 <= i < self.count()) {
            false
        } else if self.sch.instances@[i].embed {
            false
        } else if self.sch.instances@[i].collapse {
            true
        } else {
            let n = self.children(i).len() as int;
            self.branches(i, n).len() > 0 || !fits_inline(
                self.cfg,
                self.comps(i, n).len() as int,
                majors(self.major, self.comps(i, n), self.comps(i, n).len() as int) as int,
            )
        }
    }

    /// The components drawn with the module: its own, and those of the modules among its first
    /// `k` children that have no sheet of their own.
    pub open spec fn comps(self, i: int, k: int) -> Seq<usize>
        decreases self.count() - i, 0nat, k,
    {
        if !(0 <= i < self.count()) || k <= 0 || k > self.children(i).len() {
            self.own_comps(i, self.children(i).len() as int)
        } else {
            let before = self.comps(i, k - 1);
            let c = self.child(i, k - 1).instance as int;
            if self.module_at(i, k - 1) && !self.is_sheet(c) {
                before + self.comps(c, self.children(c).len() as int)
            } else {
                before
            }
        }
    }

    /// The sheets right below the module, as far as the first `k` children lead to them.
    pub open spec fn branches(self, i: int, k: int) -> Seq<Branch>
        decreases self.count() - i, 0nat, k,
    {
        if !(0 <= i < self.count()) || k <= 0 || k > self.children(i).len() {
            Seq::empty()
        } else {
            let before = self.branches(i, k - 1);
            let child = self.child(i, k - 1);
            let c = child.instance as int;
            if !self.module_at(i, k - 1) {
                before
            } else if self.is_sheet(c) {
                before.push(Branch { name: child.name, instance: child.instance })
            } else {
                before + self.branches(c, self.children(c).len() as int)
            }
        }
    }

    pub open spec fn all_comps(self, i: int) -> Seq<usize> {
        self.comps(i, self.children(i).len() as int)
    }

    pub open spec fn all_branches(self, i: int) -> Seq<Branch> {
        self.branches(i, self.children(i).len() as int)
    }
}

/// The number of parts among the first `n` that others are placed around.
pub open spec fn majors(major: Seq<bool>, comps: Seq<usize>, n: int) -> nat
    decreases n,
{
    if n <= 0 || n > comps.len() {
        0
    } else {
        majors(major, comps, n - 1) + if major[comps[n - 1] as int] {
            1nat
        } else {
            0
        }
    }
}

/// A module with so many parts is drawn on the sheet of its parent.
pub open spec fn fits_inline(cfg: SchConfig, physical: int, majors: int) -> bool {
    (cfg.inline_passive_only_modules && majors == 0) || (physical < cfg.sheet_min_parts && majors
        <= cfg.inline_max_major_parts)
}

/// What is known of a module.
#[derive(Debug)]
pub struct ModuleInfo {
    pub sheet: bool,
    pub comps: Vec<usize>,
    pub branches: Vec<Branch>,
}

pub open spec fn info_holds(site: Site, info: ModuleInfo, i: int) -> bool {
    &&& info.sheet == site.is_sheet(i)
    &&& info.comps@ == site.all_comps(i)
    &&& info.branches@ == site.all_branches(i)
    &&& below(info.comps@, site.ps.len() as int)
}

/// The infos from instance `from` on, the last instance first.
pub open spec fn infos_hold(site: Site, infos: Seq<ModuleInfo>, from: int) -> bool {
    infos.len() == site.count() - from && forall|j: int|
        0 <= j < infos.len() ==> info_holds(site, #[trigger] infos[j], site.count() - 1 - j)
}

pub proof fn lemma_branches_below(site: Site, i: int, k: int)
    ensures
        forall|j: int|
            0 <= j < site.branches(i, k).len() ==> i < (
            #[trigger] site.branches(i, k)[j]).instance < site.count(),
    decreases site.count() - i, k,
{
    if 0 <= i < site.count() && 0 < k <= site.children(i).len() {
        lemma_branches_below(site, i, k - 1);
        let before = site.branches(i, k - 1);
        let now = site.branches(i, k);
        let c = site.child(i, k - 1).instance as int;
        if site.module_at(i, k - 1) && !site.is_sheet(c) {
            lemma_branches_below(site, c, site.children(c).len() as int);
            assert forall|j: int| 0 <= j < now.len() implies i < (#[trigger] now[j]).instance
                < site.count() by {
                if j < before.len() {
                    assert(now[j] == before[j]);
                } else {
                    assert(now[j] == site.all_branches(c)[j - before.len()]);
                }
            }
        }
    }
}

fn copy_branches(out: &mut Vec<Branch>, more: &Vec<Branch>)
    ensures
        final(out)@ == old(out)@ + more@,
{
    let ghost before = out@;
    let mut n: usize = 0;
    proof {
        assert(before =~= before + more@.take(0));
    }
    while n < more.len()
        invariant
            n <= more.len(),
            out@ == before + more@.take(n as int),
        decreases more.len() - n,
    {
        out.push(Branch { name: more[n].name.clone(), instance: more[n].instance });
        n = n + 1;
        proof {
            assert(out@ =~= before + more@.take(n as int));
        }
    }
    proof {
        assert(more@.take(n as int) =~= more@);
    }
}

fn copy_comps(out: &mut Vec<usize>, more: &Vec<usize>)
    ensures
        final(out)@ == old(out)@ + more@,
{
    let ghost before = out@;
    let mut n: usize = 0;
    proof {
        assert(before =~= before + more@.take(0));
    }
    while n < more.len()
        invariant
            n <= more.len(),
            out@ == before + more@.take(n as int),
        decreases more.len() - n,
    {
        out.push(more[n]);
        n = n + 1;
        proof {
            assert(out@ =~= before + more@.take(n as int));
        }
    }
    proof {
        assert(more@.take(n as int) =~= more@);
    }
}

/// The site of a design.
pub open spec fn site_of(sch: Schematic, design: DesignModel, cfg: SchConfig) -> Site {
    Site {
        sch,
        ps: parts(design.comps@),
        major: Seq::new(
            design.comps@.len(),
            |i: int| !design.comps@[i].role.spec_is_satellite(),
        ),
        cfg,
    }
}

fn own_comps_of(sch: &Schematic, design: &DesignModel, i: usize, order: &Vec<usize>, Ghost(site): Ghost<Site>) -> (r:
    Vec<usize>)
    requires
        i < sch.instances@.len(),
        site.sch == *sch,
        site.ps == parts(design.comps@),
        order@ == child_order(sch.instances@[i as int].children@),
        order@.len() == sch.instances@[i as int].children@.len(),
        below(order@, order@.len() as int),
    ensures
        r@ == site.own_comps(i as int, site.children(i as int).len() as int),
        below(r@, site.ps.len() as int),
{
    let inst: &Instance = &sch.instances[i];
    let mut out: Vec<usize> = Vec::new();
    let mut k: usize = 0;
    while k < order.len()
        invariant
            k <= order.len(),
            i < sch.instances@.len(),
            *inst == sch.instances@[i as int],
            site.sch == *sch,
            site.ps == parts(design.comps@),
            order@ == child_order(inst.children@),
            order@.len() == inst.children@.len(),
            below(order@, order@.len() as int),
            out@ == site.own_comps(i as int, k as int),
            below(out@, site.ps.len() as int),
        decreases order.len() - k,
    {
        let c: usize = inst.children[order[k]].instance;
        proof {
            assert(site.child(i as int, k as int).instance == c);
        }
        if c < sch.instances.len() && sch.instances[c].kind == InstanceKind::Component {
            match find_comp(&design.comps, &dotted_path(&sch.instances[c].path)) {
                Some(ci) => {
                    out.push(ci);
                },
                None => {},
            }
        }
        k = k + 1;
    }
    out
}

fn count_majors(design: &DesignModel, comps: &Vec<usize>, Ghost(site): Ghost<Site>) -> (r: usize)
    requires
        below(comps@, design.comps@.len() as int),
        site.major == Seq::new(
            design.comps@.len(),
            |i: int| !design.comps@[i].role.spec_is_satellite(),
        ),
    ensures
        r == majors(site.major, comps@, comps@.len() as int),
{
    let mut count: usize = 0;
    let mut n: usize = 0;
    while n < comps.len()
        invariant
            n <= comps.len(),
            below(comps@, design.comps@.len() as int),
            site.major == Seq::new(
                design.comps@.len(),
                |i: int| !design.comps@[i].role.spec_is_satellite(),
            ),
            count == majors(site.major, comps@, n as int),
            count <= n,
        decreases comps.len() - n,
    {
        if !design.comps[comps[n]].role.is_satellite() {
            count = count + 1;
        }
        n = n + 1;
    }
    count
}

fn read_module(
    sch: &Schematic,
    design: &DesignModel,
    cfg: &SchConfig,
    infos: &Vec<ModuleInfo>,
    i: usize,
    Ghost(site): Ghost<Site>,
) -> (r: ModuleInfo)
    requires
        sch.wf(),
        i < sch.instances@.len(),
        site == site_of(*sch, *design, *cfg),
        infos_hold(site, infos@, i + 1),
    ensures
        info_holds(site, r, i as int),
{
    let inst: &Instance = &sch.instances[i];
    let order: Vec<usize> = order_children(&inst.children);
    let mut comps: Vec<usize> = own_comps_of(sch, design, i, &order, Ghost(site));
    let mut branches: Vec<Branch> = Vec::new();
    let last: usize = sch.instances.len() - 1;
    let mut k: usize = 0;
    proof {
        assert(branches@ =~= site.branches(i as int, 0));
    }
    while k < order.len()
        invariant
            k <= order.len(),
            sch.wf(),
            i < sch.instances@.len(),
            last == sch.instances@.len() - 1,
            *inst == sch.instances@[i as int],
            site == site_of(*sch, *design, *cfg),
            infos_hold(site, infos@, i + 1),
            order@ == child_order(inst.children@),
            order@.len() == inst.children@.len(),
            below(order@, order@.len() as int),
            comps@ == site.comps(i as int, k as int),
            below(comps@, site.ps.len() as int),
            branches@ == site.branches(i as int, k as int),
        decreases order.len() - k,
    {
        let child: &Child = &inst.children[order[k]];
        let c: usize = child.instance;
        let ghost comps0 = comps@;
        proof {
            assert(site.child(i as int, k as int) == *child);
            assert(sch.instances@[i as int].children@[order@[k as int] as int].instance > i);
        }
        if c < sch.instances.len() && sch.instances[c].kind == InstanceKind::Module {
            let info: &ModuleInfo = &infos[last - c];
            proof {
                assert(info_holds(site, infos@[last - c], c as int));
                assert(site.module_at(i as int, k as int));
            }
            if info.sheet {
                branches.push(Branch { name: child.name.clone(), instance: c });
            } else {
                copy_comps(&mut comps, &info.comps);
                copy_branches(&mut branches, &info.branches);
                proof {
                    assert forall|j: int| 0 <= j < comps@.len() implies #[trigger] comps@[j]
                        < site.ps.len() by {
                        if j < comps0.len() {
                            assert(comps@[j] == comps0[j]);
                        } else {
                            assert(comps@[j] == info.comps@[j - comps0.len()]);
                        }
                    }
                }
            }
        } else {
            proof {
                assert(!site.module_at(i as int, k as int));
            }
        }
        k = k + 1;
    }
    let sheet: bool = if inst.embed {
        false
    } else if inst.collapse {
        true
    } else if branches.len() > 0 {
        true
    } else {
        let major: usize = count_majors(design, &comps, Ghost(site));
        !((cfg.inline_passive_only_modules && major == 0) || (comps.len() < cfg.sheet_min_parts
            && major <= cfg.inline_max_major_parts))
    };
    ModuleInfo { sheet, comps, branches }
}

fn read_modules(sch: &Schematic, design: &DesignModel, cfg: &SchConfig, Ghost(site): Ghost<Site>) -> (r:
    Vec<ModuleInfo>)
    requires
        sch.wf(),
        site == site_of(*sch, *design, *cfg),
    ensures
        infos_hold(site, r@, 0),
{
    let mut out: Vec<ModuleInfo> = Vec::new();
    let mut i: usize = sch.instances.len();
    while i > 0
        invariant
            i <= sch.instances.len(),
            sch.wf(),
            site == site_of(*sch, *design, *cfg),
            infos_hold(site, out@, i as int),
        decreases i,
    {
        let info: ModuleInfo = read_module(sch, design, cfg, &out, i - 1, Ghost(site));
        let ghost before = out@;
        out.push(info);
        i = i - 1;
        proof {
            assert forall|j: int| 0 <= j < out@.len() implies info_holds(
                site,
                #[trigger] out@[j],
                site.count() - 1 - j,
            ) by {
                if j < before.len() {
                    assert(out@[j] == before[j]);
                }
            }
        }
    }
    out
}

// ---------------------------------------------------------------- the sheets

pub open spec fn file_names(sheets: Seq<SheetView>) -> Seq<Seq<char>> {
    Seq::new(sheets.len(), |i: int| sheets[i].file_name)
}

/// The name of a module as a file name.
pub open spec fn file_base(name: Seq<char>) -> Seq<char> {
    let s = slug(name);
    if s.len() == 0 {
        "sheet"@
    } else {
        s
    }
}

impl Site {
    /// The sheet of a module, before its children and its ports are known.
    pub open spec fn bare_sheet(
        self,
        i: int,
        parent: Option<usize>,
        title: Seq<char>,
        file: Seq<char>,
        idx: int,
    ) -> SheetView {
        SheetView {
            instance_path: self.sch.instances@[i].path@,
            title,
            file_name: file,
            page: decimal((idx + 1) as nat),
            comps: self.all_comps(i),
            ports: Seq::empty(),
            parent,
            children: Seq::empty(),
        }
    }

    /// The sheets with that of a module and all below it behind them.
    pub open spec fn emitted(
        self,
        i: int,
        parent: Option<usize>,
        title: Seq<char>,
        file: Seq<char>,
        sheets: Seq<SheetView>,
    ) -> Seq<SheetView>
        decreases self.count() - i, 1nat, 0int,
    {
        if !(0 <= i < self.count()) {
            sheets
        } else {
            let idx = sheets.len() as int;
            let start = sheets.push(self.bare_sheet(i, parent, title, file, idx));
            let (all, kids) = self.emitted_below(i, idx, start, self.all_branches(i).len() as int);
            all.update(idx, SheetView { children: kids, ..all[idx] })
        }
    }

    /// The same for the first `k` sheets right below a module; their places.
    pub open spec fn emitted_below(
        self,
        i: int,
        idx: int,
        sheets: Seq<SheetView>,
        k: int,
    ) -> (Seq<SheetView>, Seq<usize>)
        decreases self.count() - i, 0nat, k,
    {
        if !(0 <= i < self.count()) || k <= 0 || k > self.all_branches(i).len() {
            (sheets, Seq::empty())
        } else {
            let (before, kids) = self.emitted_below(i, idx, sheets, k - 1);
            let b = self.all_branches(i)[k - 1];
            if !(i < b.instance < self.count()) {
                (before, kids)
            } else {
                let file = fresh(file_base(b.name@), ".kicad_sch"@, file_names(before));
                (
                    self.emitted(
                        b.instance as int,
                        Some(idx as usize),
                        b.name@,
                        file,
                        before,
                    ),
                    kids.push(before.len() as usize),
                )
            }
        }
    }

    /// All sheets of the design, without their ports.
    pub open spec fn all_sheets(self, project: Seq<char>) -> Seq<SheetView> {
        self.emitted(self.sch.root as int, None, project, project + ".kicad_sch"@, Seq::empty())
    }
}

/// Nothing but the children of the first sheets may differ.
pub open spec fn grows(a: Seq<SheetView>, b: Seq<SheetView>) -> bool {
    a.len() <= b.len() && forall|s: int| 0 <= s < a.len() ==> #[trigger] a[s] == b[s]
}

proof fn lemma_emitted_grows(
    site: Site,
    i: int,
    parent: Option<usize>,
    title: Seq<char>,
    file: Seq<char>,
    sheets: Seq<SheetView>,
)
    requires
        0 <= i < site.count(),
    ensures
        grows(sheets, site.emitted(i, parent, title, file, sheets)),
        site.emitted(i, parent, title, file, sheets).len() > sheets.len(),
    decreases site.count() - i, 1nat, 0int,
{
    let idx = sheets.len() as int;
    let start = sheets.push(site.bare_sheet(i, parent, title, file, idx));
    lemma_below_grows(site, i, idx, start, site.all_branches(i).len() as int);
    let r = site.emitted(i, parent, title, file, sheets);
    let all = site.emitted_below(i, idx, start, site.all_branches(i).len() as int).0;
    assert forall|s: int| 0 <= s < sheets.len() implies #[trigger] sheets[s] == r[s] by {
        assert(start[s] == all[s]);
    }
}

pub proof fn lemma_below_grows(site: Site, i: int, idx: int, sheets: Seq<SheetView>, k: int)
    ensures
        grows(sheets, site.emitted_below(i, idx, sheets, k).0),
    decreases site.count() - i, 0nat, k,
{
    if 0 <= i < site.count() && 0 < k <= site.all_branches(i).len() {
        lemma_below_grows(site, i, idx, sheets, k - 1);
        let before = site.emitted_below(i, idx, sheets, k - 1).0;
        let b = site.all_branches(i)[k - 1];
        if i < b.instance < site.count() {
            let file = fresh(file_base(b.name@), ".kicad_sch"@, file_names(before));
            lemma_emitted_grows(
                site,
                b.instance as int,
                Some(idx as usize),
                b.name@,
                file,
                before,
            );
            let now = site.emitted_below(i, idx, sheets, k).0;
            assert forall|s: int| 0 <= s < sheets.len() implies #[trigger] sheets[s] == now[s] by {
                assert(sheets[s] == before[s]);
            }
        }
    }
}

fn list_file_names(sheets: &[SheetDef]) -> (r: Vec<String>)
    ensures
        views(r@) == file_names(sheet_views(sheets@)),
{
    let mut out: Vec<String> = Vec::new();
    let ghost want = file_names(sheet_views(sheets@));
    let mut n: usize = 0;
    while n < sheets.len()
        invariant
            n <= sheets.len(),
            want == file_names(sheet_views(sheets@)),
            views(out@) =~= want.take(n as int),
        decreases sheets.len() - n,
    {
        let ghost before = views(out@);
        out.push(sheets[n].file_name.show());
        n = n + 1;
        proof {
            assert(views(out@) =~= before.push(want[n - 1]));
        }
    }
    proof {
        assert(views(out@) =~= want);
    }
    out
}

/// Components and parents of the sheets are where they should be.
pub open spec fn sheets_wf(sheets: Seq<SheetView>, comps: int) -> bool {
    forall|s: int| 0 <= s < sheets.len() ==> sheet_wf(#[trigger] sheets[s], s, comps, sheets.len() as int)
}

pub open spec fn sheet_wf(v: SheetView, s: int, comps: int, count: int) -> bool {
    &&& below(v.comps, comps)
    &&& forall|k: int| 0 <= k < v.children.len() ==> s < #[trigger] v.children[k] < count
    &&& v.ports.len() == 0
}

/// Lay out the sheet of a module and all below it; the place of the sheet.
fn emit_sheet(
    sch: &Schematic,
    infos: &Vec<ModuleInfo>,
    i: usize,
    parent: Option<usize>,
    title: &String,
    file: String,
    sheets: &mut Vec<SheetDef>,
    Ghost(site): Ghost<Site>,
) -> (r: usize)
    requires
        i < sch.instances@.len(),
        site.sch == *sch,
        infos_hold(site, infos@, 0),
        sheets_wf(sheet_views(old(sheets)@), site.ps.len() as int),
    ensures
        r == old(sheets)@.len(),
        sheet_views(final(sheets)@) == site.emitted(
            i as int,
            parent,
            title@,
            file@,
            sheet_views(old(sheets)@),
        ),
        sheets_wf(sheet_views(final(sheets)@), site.ps.len() as int),
    decreases sch.instances@.len() - i,
{
    let ghost s0 = sheet_views(sheets@);
    let idx: usize = sheets.len();
    let info: &ModuleInfo = &infos[sch.instances.len() - 1 - i];
    proof {
        assert(info_holds(site, infos@[sch.instances@.len() - 1 - i], i as int));
        lemma_branches_below(site, i as int, site.children(i as int).len() as int);
    }
    let mut comps: Vec<usize> = Vec::new();
    copy_comps(&mut comps, &info.comps);
    proof {
        assert(comps@ =~= info.comps@);
    }
    let def: SheetDef = SheetDef {
        instance_path: boxed(copy_path(&sch.instances[i].path)),
        title: Text::of(title.as_str()),
        file_name: Text::of(file.as_str()),
        page: Text::of_chars(to_decimal(idx as u128 + 1)),
        comps: boxed(comps),
        ports: boxed(Vec::new()),
        parent,
        children: boxed(Vec::new()),
    };
    let ghost bare = def@;
    sheets.push(def);
    let ghost start = sheet_views(sheets@);
    let ghost top = site.ps.len() as int;
    proof {
        assert(bare.ports =~= Seq::empty());
        assert(bare.children =~= Seq::empty());
        assert(bare == site.bare_sheet(i as int, parent, title@, file@, idx as int));
        assert(start =~= s0.push(bare));
        lemma_wf_push(s0, bare, top);
    }
    let mut kids: Vec<usize> = Vec::new();
    let mut k: usize = 0;
    proof {
        assert(kids@ =~= Seq::empty());
    }
    while k < info.branches.len()
        invariant
            k <= info.branches.len(),
            i < sch.instances@.len(),
            site.sch == *sch,
            infos_hold(site, infos@, 0),
            info.branches@ == site.all_branches(i as int),
            forall|j: int|
                0 <= j < info.branches@.len() ==> i < (#[trigger] info.branches@[j]).instance
                    < sch.instances@.len(),
            top == site.ps.len(),
            start.len() == idx + 1,
            (sheet_views(sheets@), kids@) == site.emitted_below(
                i as int,
                idx as int,
                start,
                k as int,
            ),
            sheets_wf(sheet_views(sheets@), top),
            grows(start, sheet_views(sheets@)),
            forall|j: int| 0 <= j < kids@.len() ==> idx < #[trigger] kids@[j] < sheets@.len(),
        decreases info.branches.len() - k,
    {
        let b: &Branch = &info.branches[k];
        let ghost before = sheet_views(sheets@);
        let taken: Vec<String> = list_file_names(sheets);
        let named: String = slugify(b.name.as_str());
        let base: Vec<char> = chars_of(named.as_str());
        let base: Vec<char> = if base.len() == 0 {
            chars_of("sheet")
        } else {
            base
        };
        let child_file: String = fresh_name(&base, &chars_of(".kicad_sch"), &taken);
        proof {
            lemma_emitted_grows(
                site,
                b.instance as int,
                Some(idx),
                b.name@,
                child_file@,
                before,
            );
        }
        let at: usize = emit_sheet(
            sch,
            infos,
            b.instance,
            Some(idx),
            &b.name,
            child_file,
            sheets,
            Ghost(site),
        );
        kids.push(at);
        k = k + 1;
        proof {
            let now = sheet_views(sheets@);
            assert forall|s: int| 0 <= s < start.len() implies #[trigger] start[s] == now[s] by {
                assert(start[s] == before[s]);
            }
        }
    }
    let ghost all = sheet_views(sheets@);
    sheets[idx].children = boxed(kids);
    proof {
        let r = sheet_views(sheets@);
        let last = SheetView { children: kids@, ..all[idx as int] };
        assert(r =~= all.update(idx as int, last));
        assert(r == site.emitted(i as int, parent, title@, file@, s0));
        assert forall|s: int| 0 <= s < r.len() implies sheet_wf(
            #[trigger] r[s],
            s,
            top,
            r.len() as int,
        ) by {
            assert(sheet_wf(all[s], s, top, all.len() as int));
        }
    }
    idx
}

proof fn lemma_wf_push(s: Seq<SheetView>, v: SheetView, comps: int)
    requires
        sheets_wf(s, comps),
        below(v.comps, comps),
        v.children.len() == 0,
        v.ports.len() == 0,
    ensures
        sheets_wf(s.push(v), comps),
{
    let r = s.push(v);
    assert forall|k: int| 0 <= k < r.len() implies sheet_wf(
        #[trigger] r[k],
        k,
        comps,
        r.len() as int,
    ) by {
        if k < s.len() {
            assert(sheet_wf(s[k], k, comps, s.len() as int));
        }
    }
}

// ---------------------------------------------------------------- ports

/// The component is on the sheet or on one below it.
pub open spec fn within(sheets: Seq<SheetView>, si: int, ci: int) -> bool
    decreases sheets.len() - si, 1nat, 0int,
{
    0 <= si < sheets.len() && (includes(sheets[si].comps, ci) || within_below(
        sheets,
        si,
        ci,
        sheets[si].children.len() as int,
    ))
}

/// The component is on one of the first `k` sheets below, or deeper.
pub open spec fn within_below(sheets: Seq<SheetView>, si: int, ci: int, k: int) -> bool
    decreases sheets.len() - si, 0nat, k,
{
    if !(0 <= si < sheets.len()) || k <= 0 || k > sheets[si].children.len() {
        false
    } else {
        let c = sheets[si].children[k - 1] as int;
        within_below(sheets, si, ci, k - 1) || (si < c < sheets.len() && within(sheets, c, ci))
    }
}

/// Some endpoint of the net is within the sheet.
pub open spec fn ends_inside(sheets: Seq<SheetView>, net: NetModel, si: int) -> bool {
    exists|e: int|
        0 <= e < net.endpoints@.len() && within(
            sheets,
            si,
            (#[trigger] net.endpoints@[e]).comp as int,
        )
}

/// Some endpoint of the net is not within the sheet.
pub open spec fn ends_outside(sheets: Seq<SheetView>, net: NetModel, si: int) -> bool {
    exists|e: int|
        0 <= e < net.endpoints@.len() && !within(
            sheets,
            si,
            (#[trigger] net.endpoints@[e]).comp as int,
        )
}

/// A signal with endpoints on either side of the boundary of the sheet.
pub open spec fn crosses(sheets: Seq<SheetView>, net: NetModel, si: int) -> bool {
    net.class == NetClass::Signal && ends_inside(sheets, net, si) && ends_outside(sheets, net, si)
}

/// What the pins inside say of the direction of a port.
pub struct Flowing {
    pub both: bool,
    pub inward: bool,
    pub outward: bool,
}

/// The pins of the first `n` endpoints that are within the sheet.
pub open spec fn flowing(design: DesignModel, sheets: Seq<SheetView>, net: NetModel, si: int, n: int) -> Flowing
    decreases n,
{
    if n <= 0 || n > net.endpoints@.len() {
        Flowing { both: false, inward: false, outward: false }
    } else {
        let f = flowing(design, sheets, net, si, n - 1);
        let e = net.endpoints@[n - 1];
        let geom = design.comps@[e.comp as int].geom;
        match geom.spec_pin(e.pad@) {
            Some(k) => if !within(sheets, si, e.comp as int) {
                f
            } else {
                let t = geom.pins@[k].etype@;
                if t == "bidirectional"@ {
                    Flowing { both: true, ..f }
                } else if t == "input"@ || t == "power_in"@ {
                    Flowing { inward: true, ..f }
                } else if t == "output"@ || t == "power_out"@ {
                    Flowing { outward: true, ..f }
                } else {
                    f
                }
            },
            None => f,
        }
    }
}

/// The direction of a port: both ways, unless all pins inside agree on one.
pub open spec fn direction(design: DesignModel, sheets: Seq<SheetView>, net: NetModel, si: int) -> PortDirection {
    let f = flowing(design, sheets, net, si, net.endpoints@.len() as int);
    if f.both {
        PortDirection::Bidirectional
    } else if f.outward && !f.inward {
        PortDirection::Output
    } else if f.inward && !f.outward {
        PortDirection::Input
    } else {
        PortDirection::Bidirectional
    }
}

/// The ports of a sheet among the first `n` nets.
pub open spec fn ports_upto(design: DesignModel, sheets: Seq<SheetView>, si: int, n: int) -> Seq<SheetPort>
    decreases n,
{
    if n <= 0 || n > design.nets@.len() {
        Seq::empty()
    } else {
        let before = ports_upto(design, sheets, si, n - 1);
        let net = design.nets@[n - 1];
        if crosses(sheets, net, si) {
            before.push(
                SheetPort { net: (n - 1) as usize, direction: direction(design, sheets, net, si) },
            )
        } else {
            before
        }
    }
}

/// The ports of a sheet; the root has none.
pub open spec fn ports_of(design: DesignModel, sheets: Seq<SheetView>, si: int) -> Seq<SheetPort> {
    if si == 0 {
        Seq::empty()
    } else {
        ports_upto(design, sheets, si, design.nets@.len() as int)
    }
}

/// The sheets with their ports.
pub open spec fn with_ports(design: DesignModel, sheets: Seq<SheetView>) -> Seq<SheetView> {
    Seq::new(
        sheets.len(),
        |s: int| SheetView { ports: ports_of(design, sheets, s), ..sheets[s] },
    )
}

/// The sheets of a design.
#[verifier::opaque]
pub open spec fn planned(sch: Schematic, design: DesignModel, cfg: SchConfig, project: Seq<char>) -> Seq<
    SheetView,
> {
    with_ports(design, site_of(sch, design, cfg).all_sheets(project))
}

/// The sheet of a component: the last of the first `n` that lists it, else the root.
pub open spec fn sheet_of(sheets: Seq<SheetView>, ci: int, n: int) -> int
    decreases n,
{
    if n <= 0 || n > sheets.len() {
        0
    } else if includes(sheets[n - 1].comps, ci) {
        n - 1
    } else {
        sheet_of(sheets, ci, n - 1)
    }
}

/// The remarks on those of the first `n` sheets that are crowded.
pub open spec fn dense_said(sheets: Seq<SheetDef>, max: usize, n: int) -> Seq<Warning>
    decreases n,
{
    if n <= 0 || n > sheets.len() {
        Seq::empty()
    } else {
        let s = sheets[n - 1];
        if s.comps@.len() > max {
            dense_said(sheets, max, n - 1).push(
                Warning::DenseSheet { title: s.title, count: s.comps@.len() as usize, max },
            )
        } else {
            dense_said(sheets, max, n - 1)
        }
    }
}

pub open spec fn flag_rows(v: Seq<Vec<bool>>) -> Seq<Seq<bool>> {
    Seq::new(v.len(), |i: int| v[i]@)
}

/// Row `j` says which components are within sheet number `count - 1 - j`.
pub open spec fn rows_hold(sheets: Seq<SheetView>, rows: Seq<Seq<bool>>, from: int, comps: int) -> bool {
    rows.len() == sheets.len() - from && forall|j: int|
        0 <= j < rows.len() ==> row_holds(sheets, #[trigger] rows[j], sheets.len() - 1 - j, comps)
}

pub open spec fn row_holds(sheets: Seq<SheetView>, row: Seq<bool>, si: int, comps: int) -> bool {
    row.len() == comps && forall|ci: int|
        0 <= ci < comps ==> #[trigger] row[ci] == within(sheets, si, ci)
}

fn row_of(sheets: &[SheetDef], rows: &Vec<Vec<bool>>, si: usize, comps: usize) -> (r: Vec<bool>)
    requires
        si < sheets@.len(),
        sheets_wf(sheet_views(sheets@), comps as int),
        rows_hold(sheet_views(sheets@), flag_rows(rows@), si + 1, comps as int),
    ensures
        row_holds(sheet_views(sheets@), r@, si as int, comps as int),
{
    let ghost sv = sheet_views(sheets@);
    let sheet: &SheetDef = &sheets[si];
    let last: usize = sheets.len() - 1;
    let mut out: Vec<bool> = Vec::new();
    let mut ci: usize = 0;
    proof {
        assert(sv[si as int] == sheet@);
        assert(sheet_wf(sv[si as int], si as int, comps as int, sv.len() as int));
    }
    while ci < comps
        invariant
            ci <= comps,
            si < sheets@.len(),
            last == sheets@.len() - 1,
            sv == sheet_views(sheets@),
            sv[si as int] == sheet@,
            sheet_wf(sv[si as int], si as int, comps as int, sv.len() as int),
            rows_hold(sv, flag_rows(rows@), si + 1, comps as int),
            out@.len() == ci,
            forall|k: int| 0 <= k < ci ==> #[trigger] out@[k] == within(sv, si as int, k),
        decreases comps - ci,
    {
        let mut found: bool = list_includes(&sheet.comps, ci);
        let ghost own = found;
        let mut k: usize = 0;
        while k < sheet.children.len()
            invariant
                k <= sheet.children.len(),
                ci < comps,
                si < sheets@.len(),
                last == sheets@.len() - 1,
                sv == sheet_views(sheets@),
                sv[si as int] == sheet@,
                sheet_wf(sv[si as int], si as int, comps as int, sv.len() as int),
                rows_hold(sv, flag_rows(rows@), si + 1, comps as int),
                found == (own || within_below(sv, si as int, ci as int, k as int)),
            decreases sheet.children.len() - k,
        {
            let c: usize = sheet.children[k];
            proof {
                assert(si < sv[si as int].children[k as int] < sv.len());
                assert(row_holds(sv, flag_rows(rows@)[last - c], c as int, comps as int));
                assert(flag_rows(rows@)[last - c] == rows@[last - c]@);
            }
            if rows[last - c][ci] {
                found = true;
            }
            k = k + 1;
        }
        out.push(found);
        ci = ci + 1;
    }
    out
}

fn subtree_rows(sheets: &[SheetDef], comps: usize) -> (r: Vec<Vec<bool>>)
    requires
        sheets_wf(sheet_views(sheets@), comps as int),
    ensures
        rows_hold(sheet_views(sheets@), flag_rows(r@), 0, comps as int),
{
    let ghost sv = sheet_views(sheets@);
    let mut out: Vec<Vec<bool>> = Vec::new();
    let mut si: usize = sheets.len();
    while si > 0
        invariant
            si <= sheets.len(),
            sv == sheet_views(sheets@),
            sheets_wf(sv, comps as int),
            rows_hold(sv, flag_rows(out@), si as int, comps as int),
        decreases si,
    {
        let row: Vec<bool> = row_of(sheets, &out, si - 1, comps);
        let ghost before = flag_rows(out@);
        let ghost rv = row@;
        out.push(row);
        si = si - 1;
        proof {
            assert(flag_rows(out@) =~= before.push(rv));
            assert forall|j: int| 0 <= j < flag_rows(out@).len() implies row_holds(
                sv,
                #[trigger] flag_rows(out@)[j],
                sv.len() - 1 - j,
                comps as int,
            ) by {
                if j < before.len() {
                    assert(flag_rows(out@)[j] == before[j]);
                }
            }
        }
    }
    out
}

/// The direction of a port, from the pins that it reaches inside.
fn port_direction(design: &DesignModel, inside: &Vec<bool>, net: &NetModel, Ghost(sheets): Ghost<
    Seq<SheetView>,
>, Ghost(si): Ghost<int>) -> (r: PortDirection)
    requires
        row_holds(sheets, inside@, si, design.comps@.len() as int),
        forall|e: int|
            0 <= e < net.endpoints@.len() ==> (#[trigger] net.endpoints@[e]).comp
                < design.comps@.len(),
    ensures
        r == direction(*design, sheets, *net, si),
{
    let mut both: bool = false;
    let mut inward: bool = false;
    let mut outward: bool = false;
    let mut n: usize = 0;
    while n < net.endpoints.len()
        invariant
            n <= net.endpoints.len(),
            row_holds(sheets, inside@, si, design.comps@.len() as int),
            forall|e: int|
                0 <= e < net.endpoints@.len() ==> (#[trigger] net.endpoints@[e]).comp
                    < design.comps@.len(),
            (Flowing { both, inward, outward }) == flowing(*design, sheets, *net, si, n as int),
        decreases net.endpoints.len() - n,
    {
        let e: &PadRef = &net.endpoints[n];
        if inside[e.comp] {
            match design.comps[e.comp].geom.pin(e.pad.as_str()) {
                Some(pin) => {
                    let t: Vec<char> = chars_of(pin.etype.show().as_str());
                    if is_text(&t, "bidirectional") {
                        both = true;
                    } else if is_text(&t, "input") || is_text(&t, "power_in") {
                        inward = true;
                    } else if is_text(&t, "output") || is_text(&t, "power_out") {
                        outward = true;
                    }
                },
                None => {},
            }
        }
        n = n + 1;
    }
    if both {
        PortDirection::Bidirectional
    } else if outward && !inward {
        PortDirection::Output
    } else if inward && !outward {
        PortDirection::Input
    } else {
        PortDirection::Bidirectional
    }
}

fn list_ports(design: &DesignModel, inside: &Vec<bool>, Ghost(sheets): Ghost<Seq<SheetView>>, Ghost(si): Ghost<int>) -> (r:
    Vec<SheetPort>)
    requires
        design.wf(),
        row_holds(sheets, inside@, si, design.comps@.len() as int),
    ensures
        r@ == ports_upto(*design, sheets, si, design.nets@.len() as int),
        forall|p: int| 0 <= p < r@.len() ==> (#[trigger] r@[p]).net < design.nets@.len(),
{
    let mut out: Vec<SheetPort> = Vec::new();
    let mut n: usize = 0;
    while n < design.nets.len()
        invariant
            n <= design.nets.len(),
            design.wf(),
            row_holds(sheets, inside@, si, design.comps@.len() as int),
            out@ == ports_upto(*design, sheets, si, n as int),
            forall|p: int| 0 <= p < out@.len() ==> (#[trigger] out@[p]).net < design.nets@.len(),
        decreases design.nets.len() - n,
    {
        let net: &NetModel = &design.nets[n];
        proof {
            assert forall|e: int| 0 <= e < net.endpoints@.len() implies (
            #[trigger] net.endpoints@[e]).comp < design.comps@.len() by {
                assert(design.nets@[n as int].endpoints@[e].comp < design.comps@.len());
            }
        }
        if net.class == NetClass::Signal {
            let mut has_inside: bool = false;
            let mut has_outside: bool = false;
            let mut e: usize = 0;
            while e < net.endpoints.len()
                invariant
                    e <= net.endpoints.len(),
                    row_holds(sheets, inside@, si, design.comps@.len() as int),
                    forall|e: int|
                        0 <= e < net.endpoints@.len() ==> (#[trigger] net.endpoints@[e]).comp
                            < design.comps@.len(),
                    has_inside == exists|f: int|
                        0 <= f < e && within(
                            sheets,
                            si,
                            (#[trigger] net.endpoints@[f]).comp as int,
                        ),
                    has_outside == exists|f: int|
                        0 <= f < e && !within(
                            sheets,
                            si,
                            (#[trigger] net.endpoints@[f]).comp as int,
                        ),
                decreases net.endpoints.len() - e,
            {
                if inside[net.endpoints[e].comp] {
                    has_inside = true;
                } else {
                    has_outside = true;
                }
                e = e + 1;
            }
            if has_inside && has_outside {
                out.push(
                    SheetPort {
                        net: n,
                        direction: port_direction(design, inside, net, Ghost(sheets), Ghost(si)),
                    },
                );
            }
        }
        n = n + 1;
    }
    out
}

fn say_dense(sheets: &[SheetDef], max: usize, warnings: &mut Vec<Warning>)
    ensures
        final(warnings)@ == old(warnings)@ + dense_said(sheets@, max, sheets@.len() as int),
{
    let ghost w0 = warnings@;
    let mut n: usize = 0;
    proof {
        assert(w0 =~= w0 + dense_said(sheets@, max, 0));
    }
    while n < sheets.len()
        invariant
            n <= sheets.len(),
            warnings@ == w0 + dense_said(sheets@, max, n as int),
        decreases sheets.len() - n,
    {
        if sheets[n].comps.len() > max {
            warnings.push(
                Warning::DenseSheet {
                    title: sheets[n].title.clone(),
                    count: sheets[n].comps.len(),
                    max,
                },
            );
        }
        n = n + 1;
        proof {
            assert(warnings@ =~= w0 + dense_said(sheets@, max, n as int));
        }
    }
}

fn list_comp_sheets(sheets: &[SheetDef], comps: usize) -> (r: Vec<usize>)
    requires
        sheets@.len() > 0,
    ensures
        r@.len() == comps,
        forall|ci: int|
            0 <= ci < comps ==> #[trigger] r@[ci] == sheet_of(
                sheet_views(sheets@),
                ci,
                sheets@.len() as int,
            ) && r@[ci] < sheets@.len(),
{
    let ghost sv = sheet_views(sheets@);
    let mut out: Vec<usize> = Vec::new();
    let mut ci: usize = 0;
    while ci < comps
        invariant
            ci <= comps,
            sheets@.len() > 0,
            sv == sheet_views(sheets@),
            out@.len() == ci,
            forall|k: int|
                0 <= k < ci ==> #[trigger] out@[k] == sheet_of(sv, k, sv.len() as int) && out@[k]
                    < sheets@.len(),
        decreases comps - ci,
    {
        let mut n: usize = sheets.len();
        let mut searching: bool = true;
        while n > 0 && searching
            invariant
                n <= sheets.len(),
                sv == sheet_views(sheets@),
                sheet_of(sv, ci as int, sv.len() as int) == sheet_of(sv, ci as int, n as int),
                !searching ==> n > 0 && includes(sv[n - 1].comps, ci as int),
            decreases
                    n,
                    if searching {
                        1int
                    } else {
                        0
                    },
        {
            proof {
                assert(sv[n - 1].comps == sheets@[n - 1].comps@);
            }
            if list_includes(&sheets[n - 1].comps, ci) {
                searching = false;
            } else {
                n = n - 1;
            }
        }
        out.push(
            if n > 0 {
                n - 1
            } else {
                0
            },
        );
        ci = ci + 1;
    }
    out
}

/// Plan the sheets of a design.
pub fn plan_sheets(
    sch: &Schematic,
    design: &DesignModel,
    cfg: &SchConfig,
    project_name: &String,
    warnings: &mut Vec<Warning>,
) -> (r: SheetPlan)
    requires
        sch.wf(),
        design.wf(),
    ensures
        sheet_views(r.sheets@) == planned(*sch, *design, *cfg, project_name@),
        r.sheets@.len() > 0,
        r.comp_sheet@.len() == design.comps@.len(),
        forall|ci: int|
            0 <= ci < design.comps@.len() ==> #[trigger] r.comp_sheet@[ci] == sheet_of(
                sheet_views(r.sheets@),
                ci,
                r.sheets@.len() as int,
            ) && r.comp_sheet@[ci] < r.sheets@.len(),
        final(warnings)@ == old(warnings)@ + dense_said(
            r.sheets@,
            cfg.max_parts_per_sheet,
            r.sheets@.len() as int,
        ),
        r.links_wf(*design),
        forall|s: int|
            0 <= s < r.sheets@.len() ==> below(
                (#[trigger] r.sheets@[s]).comps@,
                design.comps@.len() as int,
            ) && below(r.sheets@[s].children@, r.sheets@.len() as int),
{
    proof {
        reveal(planned);
    }
    let ghost site = site_of(*sch, *design, *cfg);
    let comps: usize = design.comps.len();
    let infos: Vec<ModuleInfo> = read_modules(sch, design, cfg, Ghost(site));
    let mut sheets: Vec<SheetDef> = Vec::new();
    let mut root_file: Vec<char> = chars_of(project_name.as_str());
    crate::text::append_chars(&mut root_file, &chars_of(".kicad_sch"));
    proof {
        assert(sheet_views(sheets@) =~= Seq::empty());
    }
    let _ = emit_sheet(
        sch,
        &infos,
        sch.root,
        None,
        project_name,
        text_of(&root_file),
        &mut sheets,
        Ghost(site),
    );
    let ghost bare = sheet_views(sheets@);
    proof {
        assert(bare == site.all_sheets(project_name@));
        lemma_emitted_grows(
            site,
            sch.root as int,
            None,
            project_name@,
            project_name@ + ".kicad_sch"@,
            Seq::empty(),
        );
    }
    let inside: Vec<Vec<bool>> = subtree_rows(&sheets, comps);
    let count: usize = sheets.len();
    let mut si: usize = 1;
    proof {
        assert(sheet_wf(bare[0], 0, comps as int, bare.len() as int));
        assert forall|s: int, p: int|
            0 <= s < count && 0 <= p < sheets@[s].ports@.len() implies (
        #[trigger] sheets@[s].ports@[p]).net < design.nets@.len() by {
            assert(sheet_wf(bare[s], s, comps as int, bare.len() as int));
            assert(sheets@[s]@ == bare[s]);
        }
        assert(bare[0].ports =~= ports_of(*design, bare, 0));
        assert(bare[0] == (SheetView { ports: ports_of(*design, bare, 0), ..bare[0] }));
    }
    while si < count
        invariant
            1 <= si <= count,
            count == sheets@.len(),
            count == bare.len(),
            design.wf(),
            comps == design.comps@.len(),
            sheets_wf(bare, comps as int),
            rows_hold(bare, flag_rows(inside@), 0, comps as int),
            forall|s: int|
                0 <= s < si ==> (#[trigger] sheets@[s])@ == (SheetView {
                    ports: ports_of(*design, bare, s),
                    ..bare[s]
                }),
            forall|s: int| si <= s < count ==> (#[trigger] sheets@[s])@ == bare[s],
            forall|s: int, p: int|
                0 <= s < count && 0 <= p < sheets@[s].ports@.len() ==> (
                #[trigger] sheets@[s].ports@[p]).net < design.nets@.len(),
        decreases count - si,
    {
        proof {
            assert(row_holds(
                bare,
                flag_rows(inside@)[count - 1 - si],
                si as int,
                comps as int,
            ));
            assert(flag_rows(inside@)[count - 1 - si] == inside@[count - 1 - si]@);
        }
        let ports: Vec<SheetPort> = list_ports(
            design,
            &inside[count - 1 - si],
            Ghost(bare),
            Ghost(si as int),
        );
        let ghost before = sheets@;
        let ghost pv = ports@;
        sheets[si].ports = boxed(ports);
        proof {
            assert forall|s: int| 0 <= s < si + 1 implies (#[trigger] sheets@[s])@ == (SheetView {
                ports: ports_of(*design, bare, s),
                ..bare[s]
            }) by {
                if s < si {
                    assert(sheets@[s] == before[s]);
                } else {
                    assert(before[s]@ == bare[s]);
                }
            }
            assert forall|s: int| si + 1 <= s < count implies (#[trigger] sheets@[s])@
                == bare[s] by {
                assert(sheets@[s] == before[s]);
            }
            assert forall|s: int, p: int|
                0 <= s < count && 0 <= p < sheets@[s].ports@.len() implies (
            #[trigger] sheets@[s].ports@[p]).net < design.nets@.len() by {
                if s == si {
                    assert(sheets@[s].ports@[p] == pv[p]);
                } else {
                    assert(before[s].ports@[p].net < design.nets@.len());
                }
            }
        }
        si = si + 1;
    }
    proof {
        assert(sheet_views(sheets@) =~= with_ports(*design, bare));
        assert forall|s: int| 0 <= s < sheets@.len() implies below(
            (#[trigger] sheets@[s]).comps@,
            design.comps@.len() as int,
        ) && below(sheets@[s].children@, sheets@.len() as int) by {
            assert(sheet_wf(bare[s], s, comps as int, bare.len() as int));
            assert(sheets@[s]@.comps == bare[s].comps);
            assert(sheets@[s]@.children == bare[s].children);
        }
    }
    say_dense(&sheets, cfg.max_parts_per_sheet, warnings);
    let comp_sheet: Vec<usize> = list_comp_sheets(&sheets, comps);
    proof {
        assert forall|s: int, c: int|
            0 <= s < sheets@.len() && 0 <= c < sheets@[s].children@.len() implies #[trigger] sheets@[s].children@[c]
            < sheets@.len() by {
            assert(below(sheets@[s].children@, sheets@.len() as int));
        }
    }
    SheetPlan { sheets: boxed(sheets), comp_sheet: boxed(comp_sheet) }
}

} // verus!
